//! Source grouping: the sources of a description, parted into the groups
//! that each get a media block of their own.

use vstd::prelude::*;
use crate::jingle::{
    RtpDescription, RtpDescriptionView, Source, SourceGroup, SourceGroupView, SourceParameter,
    SourceParameterView, SourceView,
};
use crate::text::{starts_with, str_eq, to_chars};
use crate::views::{
    lemma_append_deep_view, lemma_deep_view_index, lemma_empty_deep_view, lemma_push_deep_view,
};

verus! {

/// Whether one of `groups` names the SSRC `id` among its members.
pub open spec fn in_some_group(groups: Seq<SourceGroupView>, id: u32) -> bool {
    exists|g: int| 0 <= g < groups.len() && (#[trigger] groups[g]).sources.contains(id)
}

/// The sources that no group names, each as an entry of its own, in the
/// order in which they are declared.
pub open spec fn ungrouped(sources: Seq<SourceView>, groups: Seq<SourceGroupView>) -> Seq<
    (Option<SourceGroupView>, Seq<SourceView>),
>
    decreases sources.len(),
{
    if sources.len() == 0 {
        Seq::empty()
    } else {
        let before = ungrouped(sources.drop_last(), groups);
        if in_some_group(groups, sources.last().id) {
            before
        } else {
            before.push((None, seq![sources.last()]))
        }
    }
}

/// The source that the SSRC `id` stands for: the last of `sources` that has it.
pub open spec fn resolve(sources: Seq<SourceView>, id: u32) -> Option<SourceView>
    decreases sources.len(),
{
    if sources.len() == 0 {
        None
    } else if sources.last().id == id {
        Some(sources.last())
    } else {
        resolve(sources.drop_last(), id)
    }
}

/// The sources that `ids` stand for, in the order of `ids`. An SSRC that
/// none of `sources` has is passed over.
pub open spec fn members(sources: Seq<SourceView>, ids: Seq<u32>) -> Seq<SourceView>
    decreases ids.len(),
{
    if ids.len() == 0 {
        Seq::empty()
    } else {
        let before = members(sources, ids.drop_last());
        match resolve(sources, ids.last()) {
            Some(source) => before.push(source),
            None => before,
        }
    }
}

/// The declared groups, each with the sources that its members stand for.
pub open spec fn declared(sources: Seq<SourceView>, groups: Seq<SourceGroupView>) -> Seq<
    (Option<SourceGroupView>, Seq<SourceView>),
> {
    Seq::new(groups.len(), |g: int| (Some(groups[g]), members(sources, groups[g].sources)))
}

/// Whether a parameter marks its source as the stream that the bridge mixes:
/// an `msid` whose value begins with `mixedmslabel ` .
pub open spec fn is_mixed_parameter(parameter: SourceParameterView) -> bool {
    parameter.name == "msid"@ && parameter.value is Some && "mixedmslabel "@.is_prefix_of(
        parameter.value->0,
    )
}

/// Whether one of the parameters of `source` marks it as mixed.
pub open spec fn is_mixed_source(source: SourceView) -> bool {
    exists|p: int|
        0 <= p < source.parameters.len() && is_mixed_parameter(#[trigger] source.parameters[p])
}

/// Whether one of `sources` is marked as mixed.
pub open spec fn is_mixed(sources: Seq<SourceView>) -> bool {
    exists|s: int| 0 <= s < sources.len() && is_mixed_source(#[trigger] sources[s])
}

/// The entries whose sources are mixed, or those whose sources are not, in
/// the order in which they stand.
pub open spec fn kept(entries: Seq<(Option<SourceGroupView>, Seq<SourceView>)>, mixed: bool) -> Seq<
    (Option<SourceGroupView>, Seq<SourceView>),
>
    decreases entries.len(),
{
    if entries.len() == 0 {
        Seq::empty()
    } else {
        let before = kept(entries.drop_last(), mixed);
        if is_mixed(entries.last().1) == mixed {
            before.push(entries.last())
        } else {
            before
        }
    }
}

/// The source groups of a description: first an entry for each source that
/// no group names, then an entry for each declared group; of these, the
/// entries with a mixed source before the others, each kind in that order.
pub open spec fn grouped(description: RtpDescriptionView) -> Seq<
    (Option<SourceGroupView>, Seq<SourceView>),
> {
    let entries = ungrouped(description.ssrcs, description.ssrc_groups) + declared(
        description.ssrcs,
        description.ssrc_groups,
    );
    kept(entries, true) + kept(entries, false)
}

/// Whether a parameter marks its source as mixed.
pub fn parameter_is_mixed(parameter: &SourceParameter) -> (out: bool)
    ensures
        out == is_mixed_parameter(parameter@),
{
    if !str_eq(parameter.name.as_str(), "msid") {
        return false;
    }
    match &parameter.value {
        Some(value) => starts_with(&to_chars(value.as_str()), &to_chars("mixedmslabel ")),
        None => false,
    }
}

/// Whether one of the parameters of `source` marks it as mixed.
pub fn source_is_mixed(source: &Source) -> (out: bool)
    ensures
        out == is_mixed_source(source@),
{
    let mut p: usize = 0;
    let ghost all = source.parameters.deep_view();
    while p < source.parameters.len()
        invariant
            p <= source.parameters.len(),
            all == source.parameters.deep_view(),
            all == source@.parameters,
            forall|k: int| 0 <= k < p ==> !is_mixed_parameter(#[trigger] all[k]),
        decreases source.parameters.len() - p,
    {
        proof {
            lemma_deep_view_index(source.parameters, p as int);
        }
        if parameter_is_mixed(&source.parameters[p]) {
            return true;
        }
        p += 1;
    }
    false
}

/// Whether one of `sources` is marked as mixed.
pub fn sources_are_mixed(sources: &Vec<&Source>) -> (out: bool)
    ensures
        out == is_mixed(sources.deep_view()),
{
    let mut s: usize = 0;
    let ghost all = sources.deep_view();
    while s < sources.len()
        invariant
            s <= sources.len(),
            all == sources.deep_view(),
            forall|k: int| 0 <= k < s ==> !is_mixed_source(#[trigger] all[k]),
        decreases sources.len() - s,
    {
        proof {
            lemma_deep_view_index(*sources, s as int);
        }
        if source_is_mixed(sources[s]) {
            return true;
        }
        s += 1;
    }
    false
}

/// Whether `group` names the SSRC `id` among its members.
pub fn group_names(group: &SourceGroup, id: u32) -> (out: bool)
    ensures
        out == group@.sources.contains(id),
{
    let mut m: usize = 0;
    while m < group.sources.len()
        invariant
            m <= group.sources.len(),
            forall|k: int| 0 <= k < m ==> group.sources@[k] != id,
        decreases group.sources.len() - m,
    {
        if group.sources[m] == id {
            return true;
        }
        m += 1;
    }
    false
}

/// Whether one of `groups` names the SSRC `id` among its members.
pub fn some_group_names(groups: &Vec<SourceGroup>, id: u32) -> (out: bool)
    ensures
        out == in_some_group(groups.deep_view(), id),
{
    let mut g: usize = 0;
    let ghost all = groups.deep_view();
    while g < groups.len()
        invariant
            g <= groups.len(),
            all == groups.deep_view(),
            forall|k: int| 0 <= k < g ==> !(#[trigger] all[k]).sources.contains(id),
        decreases groups.len() - g,
    {
        proof {
            lemma_deep_view_index(*groups, g as int);
        }
        if group_names(&groups[g], id) {
            return true;
        }
        g += 1;
    }
    false
}

/// Finds the source that the SSRC `id` stands for.
pub fn find_source<'a>(sources: &'a Vec<Source>, id: u32) -> (out: Option<&'a Source>)
    ensures
        out.deep_view() == resolve(sources.deep_view(), id),
{
    let mut i: usize = sources.len();
    let ghost all = sources.deep_view();
    proof {
        assert(all.take(sources.len() as int) == all);
    }
    while i > 0
        invariant
            i <= sources.len(),
            all == sources.deep_view(),
            resolve(all, id) == resolve(all.take(i as int), id),
        decreases i,
    {
        i -= 1;
        proof {
            lemma_deep_view_index(*sources, i as int);
            assert(all.take(i + 1).drop_last() == all.take(i as int));
        }
        if sources[i].id == id {
            return Some(&sources[i]);
        }
    }
    None
}

/// Finds the sources that `ids` stand for.
pub fn find_members<'a>(sources: &'a Vec<Source>, ids: &Vec<u32>) -> (out: Vec<&'a Source>)
    ensures
        out.deep_view() == members(sources.deep_view(), ids@),
{
    let mut out: Vec<&'a Source> = Vec::new();
    let mut m: usize = 0;
    proof {
        lemma_empty_deep_view(out);
    }
    while m < ids.len()
        invariant
            m <= ids.len(),
            out.deep_view() == members(sources.deep_view(), ids@.take(m as int)),
        decreases ids.len() - m,
    {
        proof {
            assert(ids@.take(m + 1).drop_last() == ids@.take(m as int));
        }
        match find_source(sources, ids[m]) {
            Some(source) => {
                let ghost before = out;
                out.push(source);
                proof {
                    lemma_push_deep_view(before, out, source);
                }
            },
            None => {},
        }
        m += 1;
    }
    assert(ids@.take(ids.len() as int) == ids@);
    out
}

/// Parts the sources of `description` into groups; see [`grouped`].
pub fn group_sources<'a>(description: &'a RtpDescription) -> (out: Vec<
    (Option<&'a SourceGroup>, Vec<&'a Source>),
>)
    ensures
        out.deep_view() == grouped(description@),
{
    let sources = &description.ssrcs;
    let groups = &description.ssrc_groups;
    let mut mixed: Vec<(Option<&'a SourceGroup>, Vec<&'a Source>)> = Vec::new();
    let mut plain: Vec<(Option<&'a SourceGroup>, Vec<&'a Source>)> = Vec::new();
    let ghost all_sources = sources.deep_view();
    let ghost all_groups = groups.deep_view();
    let ghost mut entries: Seq<(Option<SourceGroupView>, Seq<SourceView>)> = Seq::empty();
    proof {
        lemma_empty_deep_view(mixed);
        lemma_empty_deep_view(plain);
    }
    let mut i: usize = 0;
    while i < sources.len()
        invariant
            i <= sources.len(),
            all_sources == sources.deep_view(),
            all_groups == groups.deep_view(),
            entries == ungrouped(all_sources.take(i as int), all_groups),
            mixed.deep_view() == kept(entries, true),
            plain.deep_view() == kept(entries, false),
        decreases sources.len() - i,
    {
        proof {
            lemma_deep_view_index(*sources, i as int);
            assert(all_sources.take(i + 1).drop_last() == all_sources.take(i as int));
        }
        if !some_group_names(groups, sources[i].id) {
            let mut alone: Vec<&'a Source> = Vec::new();
            let ghost none = alone;
            alone.push(&sources[i]);
            proof {
                lemma_empty_deep_view(none);
                lemma_push_deep_view(none, alone, &sources[i as int]);
                assert(alone.deep_view() =~= seq![all_sources[i as int]]);
            }
            let is_mixed = sources_are_mixed(&alone);
            let entry: (Option<&'a SourceGroup>, Vec<&'a Source>) = (None, alone);
            proof {
                let longer = entries.push(entry.deep_view());
                assert(longer.drop_last() == entries);
                entries = longer;
            }
            if is_mixed {
                let ghost before = mixed;
                mixed.push(entry);
                proof {
                    lemma_push_deep_view(before, mixed, entry);
                }
            } else {
                let ghost before = plain;
                plain.push(entry);
                proof {
                    lemma_push_deep_view(before, plain, entry);
                }
            }
        }
        i += 1;
    }
    proof {
        assert(all_sources.take(sources.len() as int) == all_sources);
    }
    let ghost loose = entries;
    let ghost named = declared(all_sources, all_groups);
    let mut g: usize = 0;
    proof {
        assert(loose + named.take(0) =~= loose);
    }
    while g < groups.len()
        invariant
            g <= groups.len(),
            all_sources == sources.deep_view(),
            all_groups == groups.deep_view(),
            named == declared(all_sources, all_groups),
            entries == loose + named.take(g as int),
            mixed.deep_view() == kept(entries, true),
            plain.deep_view() == kept(entries, false),
        decreases groups.len() - g,
    {
        let found = find_members(sources, &groups[g].sources);
        let is_mixed = sources_are_mixed(&found);
        let entry: (Option<&'a SourceGroup>, Vec<&'a Source>) = (Some(&groups[g]), found);
        proof {
            lemma_deep_view_index(*groups, g as int);
            let longer = entries.push(entry.deep_view());
            assert(longer.drop_last() == entries);
            assert(longer =~= loose + named.take(g + 1));
            entries = longer;
        }
        if is_mixed {
            let ghost before = mixed;
            mixed.push(entry);
            proof {
                lemma_push_deep_view(before, mixed, entry);
            }
        } else {
            let ghost before = plain;
            plain.push(entry);
            proof {
                lemma_push_deep_view(before, plain, entry);
            }
        }
        g += 1;
    }
    proof {
        assert(named.take(groups.len() as int) == named);
    }
    let ghost first = mixed;
    let ghost second = plain;
    mixed.append(&mut plain);
    proof {
        lemma_append_deep_view(first, second, mixed);
    }
    mixed
}

} // verus!

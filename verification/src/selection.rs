//! Choosing, for each candidate, the newest version that is not a
//! pre-release, and keeping blacklisted libraries out of what the resolver
//! hands back.

use crate::catalog::Modifications;
use crate::error::{PipelineError, PipelineErrorView};
use crate::package::{Summary, SummaryView};
use crate::version::{
    is_prerelease, lemma_version_irreflexive, lemma_version_not_before_chain,
    lemma_version_transitive, version_before, Version, VersionView,
};
use vstd::prelude::*;
use vstd::string::*;

verus! {

/// A root requirement handed to the resolver: one exact version of a
/// candidate and how its features are chosen.
#[derive(Clone, Debug, PartialEq, Eq)]
pub struct Requirement {
    pub summary: Summary,
    pub dev_deps: bool,
    pub features: Vec<String>,
    pub uses_default_features: bool,
    pub all_features: bool,
}

/// What the registry answers when asked for a candidate: every version of
/// it that it offers.
#[derive(Clone, Debug, PartialEq, Eq)]
pub struct Answer {
    pub name: String,
    pub matches: Vec<Summary>,
}

/// What an [`Answer`] stands for.
pub struct AnswerView {
    pub name: Seq<char>,
    pub matches: Seq<SummaryView>,
}

impl DeepView for Answer {
    type V = AnswerView;

    open spec fn deep_view(&self) -> AnswerView {
        AnswerView { name: self.name@, matches: self.matches.deep_view() }
    }
}

/// One package of a resolution: a library and the exact version of it.
#[derive(Clone, Debug, PartialEq, Eq)]
pub struct ResolvedId {
    pub name: String,
    pub version: Version,
}

/// What a [`ResolvedId`] stands for.
pub struct ResolvedIdView {
    pub name: Seq<char>,
    pub version: VersionView,
}

impl DeepView for ResolvedId {
    type V = ResolvedIdView;

    open spec fn deep_view(&self) -> ResolvedIdView {
        ResolvedIdView { name: self.name@, version: self.version@ }
    }
}

/// Whether any of the versions is a release.
pub open spec fn has_release(matches: Seq<SummaryView>) -> bool {
    exists|i: int| 0 <= i < matches.len() && !is_prerelease(#[trigger] matches[i].version)
}

/// Whether the version at `i` is the one to select: a release that no other
/// release goes beyond, and of several such the last.
pub open spec fn is_newest_release(matches: Seq<SummaryView>, i: int) -> bool {
    &&& 0 <= i < matches.len()
    &&& !is_prerelease(matches[i].version)
    &&& forall|j: int|
        0 <= j < matches.len() && !is_prerelease(#[trigger] matches[j].version)
            ==> !version_before(matches[i].version, matches[j].version)
    &&& forall|j: int|
        i < j < matches.len() && !is_prerelease(#[trigger] matches[j].version) ==> version_before(
            matches[j].version,
            matches[i].version,
        )
}

/// At most one version of a list is the one to select.
pub proof fn lemma_newest_release_unique(matches: Seq<SummaryView>, i: int, j: int)
    requires
        is_newest_release(matches, i),
        is_newest_release(matches, j),
    ensures
        i == j,
{
    if i < j {
        assert(version_before(matches[j].version, matches[i].version));
        assert(!version_before(matches[j].version, matches[i].version));
    } else if j < i {
        assert(version_before(matches[i].version, matches[j].version));
        assert(!version_before(matches[i].version, matches[j].version));
    }
}

/// The place of the newest version that is not a pre-release, if there is
/// one.
pub fn newest_release(matches: &Vec<Summary>) -> (r: Option<usize>)
    ensures
        r is Some <==> has_release(matches.deep_view()),
        r matches Some(i) ==> is_newest_release(matches.deep_view(), i as int),
{
    let ghost all = matches.deep_view();
    let mut best: Option<usize> = None;
    let mut j: usize = 0;
    while j < matches.len()
        invariant
            j <= matches.len(),
            all == matches.deep_view(),
            best is None ==> forall|k: int| 0 <= k < j ==> is_prerelease(#[trigger] all[k].version),
            best matches Some(b) ==> {
                &&& b < j
                &&& !is_prerelease(all[b as int].version)
                &&& forall|k: int|
                    0 <= k < j && !is_prerelease(#[trigger] all[k].version) ==> !version_before(
                        all[b as int].version,
                        all[k].version,
                    )
                &&& forall|k: int|
                    b < k < j && !is_prerelease(#[trigger] all[k].version) ==> version_before(
                        all[k].version,
                        all[b as int].version,
                    )
            },
        decreases matches.len() - j,
    {
        assert(all[j as int] == matches[j as int].deep_view());
        if !matches[j].version.is_prerelease() {
            match best {
                None => {
                    proof {
                        lemma_version_irreflexive(all[j as int].version);
                    }
                    best = Some(j);
                },
                Some(b) => {
                    assert(all[b as int] == matches[b as int].deep_view());
                    if !matches[j].version.precedes(&matches[b].version) {
                        proof {
                            let now = all[j as int].version;
                            let was = all[b as int].version;
                            lemma_version_irreflexive(now);
                            assert forall|k: int|
                                0 <= k < j + 1 && !is_prerelease(
                                    #[trigger] all[k].version,
                                ) implies !version_before(now, all[k].version) by {
                                if k < j {
                                    lemma_version_not_before_chain(now, was, all[k].version);
                                }
                            }
                        }
                        best = Some(j);
                    } else {
                        proof {
                            let now = all[j as int].version;
                            let was = all[b as int].version;
                            if version_before(was, now) {
                                lemma_version_transitive(was, now, was);
                                lemma_version_irreflexive(was);
                            }
                        }
                    }
                },
            }
        }
        j += 1;
    }
    best
}

/// The requirement that stands for a selected version: its default
/// features, no others, and no development dependencies.
pub fn root_requirement(summary: Summary) -> (r: Requirement)
    ensures
        r.summary == summary,
        !r.dev_deps,
        r.features@.len() == 0,
        r.uses_default_features,
        !r.all_features,
{
    Requirement {
        summary,
        dev_deps: false,
        features: Vec::new(),
        uses_default_features: true,
        all_features: false,
    }
}

/// Selects the version of one candidate: the newest that is not a
/// pre-release. A candidate without such a version is an error.
pub fn select_root(answer: Answer) -> (r: Result<Requirement, PipelineError>)
    ensures
        r is Ok <==> has_release(answer.deep_view().matches),
        r matches Ok(root) ==> {
            &&& exists|i: int|
                is_newest_release(answer.deep_view().matches, i) && root.summary.deep_view()
                    == answer.deep_view().matches[i]
            &&& !root.dev_deps
            &&& root.features@.len() == 0
            &&& root.uses_default_features
            &&& !root.all_features
        },
        r matches Err(e) ==> e.deep_view() == (PipelineErrorView::NoViableVersion {
            name: answer.name@,
        }),
{
    let Answer { name, mut matches } = answer;
    match newest_release(&matches) {
        Some(i) => {
            let ghost all = matches.deep_view();
            let summary = matches.swap_remove(i);
            assert(summary.deep_view() == all[i as int]);
            Ok(root_requirement(summary))
        },
        None => Err(PipelineError::NoViableVersion { name }),
    }
}

/// The place of the first answer that holds no release, or the number of
/// answers if each holds one.
pub open spec fn first_without_release(answers: Seq<AnswerView>) -> int
    decreases answers.len(),
{
    if answers.len() == 0 {
        0
    } else if !has_release(answers[0].matches) {
        0
    } else {
        1 + first_without_release(answers.drop_first())
    }
}

proof fn lemma_first_without_release(answers: Seq<AnswerView>)
    ensures
        0 <= first_without_release(answers) <= answers.len(),
        first_without_release(answers) < answers.len() ==> !has_release(
            answers[first_without_release(answers)].matches,
        ),
        forall|i: int|
            0 <= i < first_without_release(answers) ==> has_release(
                (#[trigger] answers[i]).matches,
            ),
    decreases answers.len(),
{
    if answers.len() > 0 && has_release(answers[0].matches) {
        let rest = answers.drop_first();
        lemma_first_without_release(rest);
        assert forall|i: int| 0 <= i < first_without_release(answers) implies has_release(
            (#[trigger] answers[i]).matches,
        ) by {
            if i > 0 {
                assert(answers[i] == rest[i - 1]);
            }
        }
    }
}

/// Selects a version of every candidate, in the order of the answers. The
/// run fails on the first candidate of which the registry offers no
/// release.
pub fn select_roots(answers: Vec<Answer>) -> (r: Result<Vec<Requirement>, PipelineError>)
    ensures
        r is Ok <==> first_without_release(answers.deep_view()) == answers.len(),
        r matches Ok(roots) ==> {
            &&& roots.len() == answers.len()
            &&& forall|k: int|
                #![trigger roots[k]]
                0 <= k < roots.len() ==> {
                    &&& exists|i: int|
                        is_newest_release(answers.deep_view()[k].matches, i)
                            && roots[k].summary.deep_view() == answers.deep_view()[k].matches[i]
                    &&& !roots[k].dev_deps
                    &&& roots[k].features@.len() == 0
                    &&& roots[k].uses_default_features
                    &&& !roots[k].all_features
                }
        },
        r matches Err(e) ==> e.deep_view() == (PipelineErrorView::NoViableVersion {
            name: answers.deep_view()[first_without_release(answers.deep_view())].name,
        }),
{
    let ghost all = answers.deep_view();
    proof {
        lemma_first_without_release(all);
    }
    let mut roots: Vec<Requirement> = Vec::new();
    for answer in it: answers
        invariant
            it.seq().len() == all.len(),
            forall|k: int| 0 <= k < all.len() ==> it.seq()[k].deep_view() == all[k],
            roots.len() == it.index(),
            it.index() <= first_without_release(all) <= all.len(),
            first_without_release(all) < all.len() ==> !has_release(
                all[first_without_release(all)].matches,
            ),
            forall|i: int|
                0 <= i < first_without_release(all) ==> has_release((#[trigger] all[i]).matches),
            all == answers.deep_view(),
            forall|k: int|
                #![trigger roots[k]]
                0 <= k < roots.len() ==> {
                    &&& exists|i: int|
                        is_newest_release(all[k].matches, i) && roots[k].summary.deep_view()
                            == all[k].matches[i]
                    &&& !roots[k].dev_deps
                    &&& roots[k].features@.len() == 0
                    &&& roots[k].uses_default_features
                    &&& !roots[k].all_features
                },
    {
        assert(answer.deep_view() == all[it.index() as int]);
        match select_root(answer) {
            Ok(root) => {
                roots.push(root);
            },
            Err(e) => {
                proof {
                    let at = it.index() as int;
                    let first = first_without_release(all);
                    if at < first {
                        assert(has_release(all[at].matches));
                    }
                }
                return Err(e);
            },
        }
    }
    Ok(roots)
}

/// The resolved packages without those of blacklisted libraries, in the
/// order in which the resolver gave them.
pub open spec fn allowed(resolved: Seq<ResolvedIdView>, banned: Seq<Seq<char>>) -> Seq<
    ResolvedIdView,
> {
    resolved.filter(|id: ResolvedIdView| !banned.contains(id.name))
}

/// Keeps blacklisted libraries out of a resolution: also those that were
/// no candidates and came in as dependencies of one.
pub fn allowed_ids(resolved: Vec<ResolvedId>, modifications: &Modifications) -> (r: Vec<
    ResolvedId,
>)
    ensures
        r.deep_view() == allowed(resolved.deep_view(), modifications.banned()),
        forall|k: int|
            0 <= k < r.len() ==> !modifications.banned().contains(
                (#[trigger] r.deep_view()[k]).name,
            ),
{
    let ghost all = resolved.deep_view();
    let ghost banned = modifications.banned();
    let ghost keep = |id: ResolvedIdView| !banned.contains(id.name);
    let mut out: Vec<ResolvedId> = Vec::new();
    assert(all.take(0).filter(keep) =~= out.deep_view());
    for id in it: resolved
        invariant
            it.seq().len() == all.len(),
            forall|k: int| 0 <= k < all.len() ==> it.seq()[k].deep_view() == all[k],
            banned == modifications.banned(),
            keep == |id: ResolvedIdView| !banned.contains(id.name),
            out.deep_view() == all.take(it.index() as int).filter(keep),
            forall|k: int|
                0 <= k < out.len() ==> !banned.contains((#[trigger] out.deep_view()[k]).name),
    {
        let ghost at = it.index() as int;
        proof {
            assert(all.take(at + 1) =~= all.take(at).push(all[at]));
            all.take(at).lemma_filter_push(all[at], keep);
            assert(id.deep_view() == all[at]);
        }
        if !modifications.blacklisted(id.name.as_str()) {
            let ghost before = out.deep_view();
            out.push(id);
            assert(out.deep_view() =~= before.push(all[at]));
        }
    }
    assert(all.take(all.len() as int) =~= all);
    out
}

} // verus!

//! The feature override that a package asks for in its embedded metadata.

use crate::names::{ascending, insert_name, remove_name};
use crate::package::{
    Feature, FeatureView, MetadataBlock, MetadataBlockView, MetadataView, Package, PackageView,
};
use crate::text::same;
use vstd::prelude::*;
use vstd::string::*;

verus! {

/// The names of the features, in the order in which they are declared.
pub open spec fn feature_names(features: Seq<FeatureView>) -> Seq<Seq<char>> {
    Seq::new(features.len(), |i: int| features[i].name)
}

/// The place of the first feature named `default`, or the number of
/// features if none has that name.
pub open spec fn default_group_at(features: Seq<FeatureView>) -> int
    decreases features.len(),
{
    if features.len() == 0 {
        0
    } else if features[0].name == "default"@ {
        0
    } else {
        1 + default_group_at(features.drop_first())
    }
}

/// What the library's own default-feature group implies; nothing where the
/// library declares no such group.
pub open spec fn default_group(features: Seq<FeatureView>) -> Seq<Seq<char>> {
    if default_group_at(features) < features.len() {
        features[default_group_at(features)].implies
    } else {
        Seq::empty()
    }
}

/// The features that the metadata asks for: every declared feature where it
/// asks for all, else the ones it lists.
pub open spec fn requested(features: Seq<FeatureView>, m: MetadataView) -> Set<Seq<char>> {
    if m.all_features {
        feature_names(features).to_set()
    } else {
        m.features.to_set()
    }
}

/// The features that come with the defaults: the name `default` itself and
/// what the library's default group implies.
pub open spec fn granted(features: Seq<FeatureView>) -> Set<Seq<char>> {
    default_group(features).to_set().insert("default"@)
}

/// The features to enable explicitly: those asked for, without those that
/// the defaults bring where the defaults are kept.
pub open spec fn enabled(features: Seq<FeatureView>, m: MetadataView) -> Set<Seq<char>> {
    if m.default_features {
        requested(features, m).difference(granted(features))
    } else {
        requested(features, m)
    }
}

/// The override that a package asks for: the features to enable and whether
/// the defaults are kept. There is none where the package has no readable
/// metadata block, and none where the block changes nothing.
pub open spec fn feature_override(p: PackageView) -> Option<(Set<Seq<char>>, bool)> {
    match p.metadata {
        MetadataBlockView::Present(m) => {
            if m.default_features && enabled(p.features, m) == Set::<Seq<char>>::empty() {
                None
            } else {
                Some((enabled(p.features, m), m.default_features))
            }
        },
        _ => None,
    }
}

proof fn lemma_take_next_to_set(s: Seq<Seq<char>>, i: int)
    requires
        0 <= i < s.len(),
    ensures
        s.take(i + 1).to_set() == s.take(i).to_set().insert(s[i]),
{
    let a = s.take(i + 1);
    let b = s.take(i);
    assert(a =~= b.push(s[i]));
    assert(a.to_set() =~= b.to_set().insert(s[i])) by {
        assert forall|t: Seq<char>| a.contains(t) implies b.contains(t) || t == s[i] by {
            let k = choose|k: int| 0 <= k < a.len() && a[k] == t;
            if k < i {
                assert(b[k] == t);
            }
        }
        assert forall|t: Seq<char>| b.contains(t) || t == s[i] implies a.contains(t) by {
            if b.contains(t) {
                let k = choose|k: int| 0 <= k < b.len() && b[k] == t;
                assert(a[k] == t);
            } else {
                assert(a[i] == t);
            }
        }
    }
}

proof fn lemma_default_group_at(features: Seq<FeatureView>)
    ensures
        0 <= default_group_at(features) <= features.len(),
        default_group_at(features) < features.len() ==> features[default_group_at(
            features,
        )].name == "default"@,
        forall|i: int| 0 <= i < default_group_at(features) ==> features[i].name != "default"@,
    decreases features.len(),
{
    if features.len() > 0 && features[0].name != "default"@ {
        let rest = features.drop_first();
        lemma_default_group_at(rest);
        assert forall|i: int| 0 <= i < default_group_at(features) implies features[i].name
            != "default"@ by {
            if i > 0 {
                assert(features[i] == rest[i - 1]);
            }
        }
    }
}

/// The texts of `names` in ascending order, each once.
pub fn sorted_names(names: &Vec<String>) -> (r: Vec<String>)
    ensures
        ascending(r.deep_view()),
        r.deep_view().to_set() == names.deep_view().to_set(),
{
    let ghost all = names.deep_view();
    let mut out: Vec<String> = Vec::new();
    let mut i: usize = 0;
    assert(out.deep_view().to_set() =~= all.take(0).to_set());
    while i < names.len()
        invariant
            i <= names.len(),
            all == names.deep_view(),
            ascending(out.deep_view()),
            out.deep_view().to_set() == all.take(i as int).to_set(),
        decreases names.len() - i,
    {
        proof {
            lemma_take_next_to_set(all, i as int);
        }
        insert_name(&mut out, names[i].clone());
        i += 1;
    }
    assert(all.take(names.len() as int) =~= all);
    out
}

/// The names of the declared features in ascending order, each once.
pub fn declared_names(features: &Vec<Feature>) -> (r: Vec<String>)
    ensures
        ascending(r.deep_view()),
        r.deep_view().to_set() == feature_names(features.deep_view()).to_set(),
{
    let ghost all = feature_names(features.deep_view());
    let mut out: Vec<String> = Vec::new();
    let mut i: usize = 0;
    assert(out.deep_view().to_set() =~= all.take(0).to_set());
    while i < features.len()
        invariant
            i <= features.len(),
            all == feature_names(features.deep_view()),
            ascending(out.deep_view()),
            out.deep_view().to_set() == all.take(i as int).to_set(),
        decreases features.len() - i,
    {
        proof {
            lemma_take_next_to_set(all, i as int);
            assert(all[i as int] == features[i as int].name@);
        }
        insert_name(&mut out, features[i].name.clone());
        i += 1;
    }
    assert(all.take(features.len() as int) =~= all);
    out
}

/// Takes every text of `names` out of an ascending list.
pub fn remove_names(list: &mut Vec<String>, names: &Vec<String>)
    requires
        ascending(old(list).deep_view()),
    ensures
        ascending(final(list).deep_view()),
        final(list).deep_view().to_set() == old(list).deep_view().to_set().difference(
            names.deep_view().to_set(),
        ),
{
    let ghost all = names.deep_view();
    let ghost was = list.deep_view().to_set();
    let mut i: usize = 0;
    assert(was =~= was.difference(all.take(0).to_set()));
    while i < names.len()
        invariant
            i <= names.len(),
            all == names.deep_view(),
            ascending(list.deep_view()),
            list.deep_view().to_set() == was.difference(all.take(i as int).to_set()),
        decreases names.len() - i,
    {
        proof {
            lemma_take_next_to_set(all, i as int);
            assert(was.difference(all.take(i as int).to_set()).remove(all[i as int])
                =~= was.difference(all.take(i + 1).to_set()));
        }
        remove_name(list, names[i].as_str());
        i += 1;
    }
    assert(all.take(names.len() as int) =~= all);
}

/// The library's own default-feature group, if it declares one.
pub fn find_default_group(features: &Vec<Feature>) -> (r: Option<&Feature>)
    ensures
        r is Some <==> default_group_at(features.deep_view()) < features.len(),
        r matches Some(group) ==> group.deep_view() == features.deep_view()[default_group_at(
            features.deep_view(),
        )] && group.implies.deep_view() == default_group(features.deep_view()),
{
    let ghost all = features.deep_view();
    proof {
        lemma_default_group_at(all);
    }
    let mut i: usize = 0;
    while i < features.len()
        invariant
            i <= features.len(),
            all == features.deep_view(),
            i <= default_group_at(all) <= all.len(),
            default_group_at(all) < all.len() ==> all[default_group_at(all)].name == "default"@,
            forall|k: int| 0 <= k < default_group_at(all) ==> all[k].name != "default"@,
        decreases features.len() - i,
    {
        assert(all[i as int] == features[i as int].deep_view());
        if same(features[i].name.as_str(), "default") {
            return Some(&features[i]);
        }
        i += 1;
    }
    None
}

/// Finds the features that the custom metadata of `pkg` asks for.
///
/// The metadata block looks like:
///
/// ```toml
/// [package.metadata.playground]
/// default-features = true
/// features = ["std", "extra-traits"]
/// all-features = false
/// ```
///
/// All fields are optional. The result names the features to enable, in
/// ascending order and each once, and says whether the default features
/// are kept; it is `None` where the package asks for no change.
pub fn playground_metadata_features(pkg: &Package) -> (r: Option<(Vec<String>, bool)>)
    ensures
        match r {
            Some((list, keeps_defaults)) => ascending(list.deep_view()) && feature_override(
                pkg.deep_view(),
            ) == Some((list.deep_view().to_set(), keeps_defaults)),
            None => feature_override(pkg.deep_view()) is None,
        },
{
    let metadata = match &pkg.metadata {
        MetadataBlock::Present(metadata) => metadata,
        _ => {
            return None;
        },
    };
    let ghost features = pkg.summary.features.deep_view();
    let ghost m = metadata.deep_view();

    // If `all-features` is set then `features` is not looked at.
    let mut enabled_features = if metadata.all_features {
        declared_names(&pkg.summary.features)
    } else {
        sorted_names(&metadata.features)
    };
    assert(enabled_features.deep_view().to_set() == requested(features, m));

    // Where the defaults are kept, what they bring is not named again: the
    // list then stays as it is when the library's defaults grow.
    if metadata.default_features {
        remove_name(&mut enabled_features, "default");
        match find_default_group(&pkg.summary.features) {
            Some(group) => {
                remove_names(&mut enabled_features, &group.implies);
            },
            None => {},
        }
        assert(enabled_features.deep_view().to_set() =~= enabled(features, m));
    }
    proof {
        let list = enabled_features.deep_view();
        if list.len() > 0 {
            assert(list.to_set().contains(list[0]));
        } else {
            assert(list.to_set() =~= Set::<Seq<char>>::empty());
        }
    }

    if enabled_features.len() > 0 || !metadata.default_features {
        Some((enabled_features, metadata.default_features))
    } else {
        None
    }
}

} // verus!

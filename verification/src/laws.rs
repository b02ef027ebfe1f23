//! What holds of the stages taken together.

use crate::arrange::{
    arranged, lemma_arranged_ordered, lemma_arranged_permutes, lemma_package_irreflexive, ordered,
    package_before,
};
use crate::manifest::{
    exposed_identifier, first_without_library, leads_run, lemma_first_without_library,
    lemma_table_identifiers_distinct, spec_of, synthesized, table_upto, DependencyTable,
    Synthesis,
};
use crate::names::{lemma_ascending_distinct, lemma_ascending_unique, lemma_rank_of_member};
use crate::package::{canonical_identifier, has_library, PackageView};
use crate::text::{lemma_text_connected, text_before};
use crate::version::{lemma_triple_injective, triple_text, version_before};
use vstd::prelude::*;

verus! {

/// A mapping from identifiers to what is pinned under them is listed by one
/// table only.
pub proof fn lemma_tables_agree(a: DependencyTable, b: DependencyTable)
    requires
        a.well_formed(),
        b.well_formed(),
        a.as_map() == b.as_map(),
    ensures
        a.ids() == b.ids(),
        a.specs() == b.specs(),
{
    assert(a.ids().to_set() =~= b.ids().to_set()) by {
        assert forall|id: Seq<char>| a.ids().contains(id) <==> b.ids().contains(id) by {
            assert(a.as_map().dom().contains(id) <==> a.ids().contains(id));
            assert(b.as_map().dom().contains(id) <==> b.ids().contains(id));
        }
    }
    lemma_ascending_unique(a.ids(), b.ids());
    assert(a.specs() =~= b.specs()) by {
        assert forall|i: int| 0 <= i < a.specs().len() implies a.specs()[i] == b.specs()[i] by {
            let id = a.ids()[i];
            lemma_rank_of_member(a.ids(), i);
            assert(a.ids().contains(id));
            assert(a.as_map()[id] == a.specs()[i]);
            assert(b.as_map()[id] == b.specs()[i]);
        }
    }
}

/// What a run hands back is determined by the packages that it is given:
/// two runs on the same packages list the same index and the same table,
/// entry for entry and in the same order.
pub proof fn lemma_synthesis_determined(
    packages: Seq<PackageView>,
    first: Synthesis,
    second: Synthesis,
)
    requires
        synthesized(packages, first),
        synthesized(packages, second),
    ensures
        first.infos.deep_view() == second.infos.deep_view(),
        first.dependencies.ids() == second.dependencies.ids(),
        first.dependencies.specs() == second.dependencies.specs(),
{
    lemma_tables_agree(first.dependencies, second.dependencies);
}

/// Whether no two of the packages tie: of any two, one is processed before
/// the other. Packages of different libraries never tie, nor do versions of
/// one library that differ in more than build metadata.
pub open spec fn no_ties(packages: Seq<PackageView>) -> bool {
    forall|i: int, j: int|
        0 <= i < packages.len() && 0 <= j < packages.len() && i != j ==> package_before(
            packages[i],
            packages[j],
        ) || package_before(packages[j], packages[i])
}

/// Whether each package is processed before every later one.
pub open spec fn strictly_ordered(packages: Seq<PackageView>) -> bool {
    forall|i: int, j: int|
        0 <= i < j < packages.len() ==> package_before(packages[i], packages[j])
}

proof fn lemma_strictly_ordered_distinct(x: Seq<PackageView>)
    requires
        strictly_ordered(x),
    ensures
        x.no_duplicates(),
{
    assert forall|i: int, j: int| 0 <= i < x.len() && 0 <= j < x.len() && i != j implies x[i]
        != x[j] by {
        lemma_package_irreflexive(x[i]);
        if i < j {
            assert(package_before(x[i], x[j]));
        } else {
            assert(package_before(x[j], x[i]));
        }
    }
}

/// An ordered list is the only one that holds its packages in order, where
/// no two of them tie.
proof fn lemma_strict_order_unique(x: Seq<PackageView>, y: Seq<PackageView>)
    requires
        strictly_ordered(x),
        ordered(y),
        x.to_multiset() == y.to_multiset(),
    ensures
        x == y,
    decreases x.len(),
{
    broadcast use vstd::seq_lib::group_to_multiset_ensures;

    assert(x.len() == x.to_multiset().len());
    assert(y.len() == y.to_multiset().len());
    if x.len() == 0 {
        assert(x =~= y);
    } else {
        lemma_strictly_ordered_distinct(x);
        x.lemma_multiset_has_no_duplicates();
        y.lemma_multiset_has_no_duplicates_conv();
        let first = x[0];
        assert(x.contains(first));
        assert(x.to_multiset().count(first) > 0);
        assert(y.contains(first));
        let j = choose|j: int| 0 <= j < y.len() && y[j] == first;
        if j > 0 {
            assert(y.contains(y[0]));
            assert(y.to_multiset().count(y[0]) > 0);
            assert(x.contains(y[0]));
            let i = choose|i: int| 0 <= i < x.len() && x[i] == y[0];
            assert(!package_before(y[j], y[0]));
            if i > 0 {
                assert(package_before(x[0], x[i]));
            }
            assert(y[0] == y[j]);
        }
        assert(y[0] == first);
        let x1 = x.remove(0);
        let y1 = y.remove(0);
        assert(x1.to_multiset() == y1.to_multiset());
        assert(strictly_ordered(x1)) by {
            assert forall|a: int, b: int| 0 <= a < b < x1.len() implies package_before(
                x1[a],
                x1[b],
            ) by {
                assert(x1[a] == x[a + 1] && x1[b] == x[b + 1]);
            }
        }
        assert(ordered(y1)) by {
            assert forall|a: int, b: int| 0 <= a < b < y1.len() implies !package_before(
                y1[b],
                y1[a],
            ) by {
                assert(y1[a] == y[a + 1] && y1[b] == y[b + 1]);
            }
        }
        lemma_strict_order_unique(x1, y1);
        assert(x =~= seq![first] + x1);
        assert(y =~= seq![first] + y1);
    }
}

/// The order in which the packages are given does not matter, where no two
/// of them tie: the same packages in another order are arranged alike.
pub proof fn lemma_arranged_order_free(a: Seq<PackageView>, b: Seq<PackageView>)
    requires
        a.to_multiset() == b.to_multiset(),
        no_ties(a),
    ensures
        arranged(a) == arranged(b),
{
    broadcast use vstd::seq_lib::group_to_multiset_ensures;

    let x = arranged(a);
    let y = arranged(b);
    lemma_arranged_ordered(a);
    lemma_arranged_ordered(b);
    lemma_arranged_permutes(a);
    lemma_arranged_permutes(b);
    assert(a.no_duplicates()) by {
        assert forall|i: int, j: int| 0 <= i < a.len() && 0 <= j < a.len() && i != j implies a[i]
            != a[j] by {
            lemma_package_irreflexive(a[i]);
        }
    }
    a.lemma_multiset_has_no_duplicates();
    x.lemma_multiset_has_no_duplicates_conv();
    assert(strictly_ordered(x)) by {
        assert forall|i: int, j: int| 0 <= i < j < x.len() implies package_before(x[i], x[j]) by {
            assert(x.contains(x[i]) && x.contains(x[j]));
            assert(x.to_multiset().count(x[i]) > 0 && x.to_multiset().count(x[j]) > 0);
            assert(a.contains(x[i]) && a.contains(x[j]));
            let p = choose|p: int| 0 <= p < a.len() && a[p] == x[i];
            let q = choose|q: int| 0 <= q < a.len() && a[q] == x[j];
            assert(x[i] != x[j]);
            assert(p != q);
            assert(package_before(a[p], a[q]) || package_before(a[q], a[p]));
            assert(!package_before(x[j], x[i]));
        }
    }
    lemma_strict_order_unique(x, y);
}

/// What a run hands back does not depend on the order in which the
/// packages were fetched, where no two of them tie: two runs on the same
/// packages, given in any order, list the same index and the same table.
pub proof fn lemma_synthesis_order_free(
    a: Seq<PackageView>,
    b: Seq<PackageView>,
    first: Synthesis,
    second: Synthesis,
)
    requires
        a.to_multiset() == b.to_multiset(),
        no_ties(a),
        synthesized(a, first),
        synthesized(b, second),
    ensures
        first.infos.deep_view() == second.infos.deep_view(),
        first.dependencies.ids() == second.dependencies.ids(),
        first.dependencies.specs() == second.dependencies.specs(),
{
    lemma_arranged_order_free(a, b);
    lemma_tables_agree(first.dependencies, second.dependencies);
}

/// The identifiers that the manifest lists differ from each other,
/// whatever the packages were.
pub proof fn lemma_manifest_identifiers_unique(packages: Seq<PackageView>, s: Synthesis)
    requires
        synthesized(packages, s),
    ensures
        forall|i: int, j: int|
            0 <= i < j < s.dependencies.ids().len() ==> s.dependencies.ids()[i]
                != s.dependencies.ids()[j],
{
    lemma_table_identifiers_distinct(s.dependencies);
}

/// Whether no two of the packages are exposed under one identifier.
pub open spec fn named_apart(sorted: Seq<PackageView>) -> bool {
    forall|i: int, j: int|
        0 <= i < j < sorted.len() ==> exposed_identifier(sorted, i) != exposed_identifier(
            sorted,
            j,
        )
}

/// The table of the first `n` packages holds the identifiers of these
/// packages and no others; where these identifiers differ from each other,
/// it pins each package under its own.
pub proof fn lemma_table_upto(sorted: Seq<PackageView>, n: int)
    requires
        0 <= n <= sorted.len(),
    ensures
        forall|id: Seq<char>|
            table_upto(sorted, n).dom().contains(id) <==> exists|k: int|
                0 <= k < n && exposed_identifier(sorted, k) == id,
        forall|id: Seq<char>|
            table_upto(sorted, n).dom().contains(id) ==> exists|k: int|
                0 <= k < n && exposed_identifier(sorted, k) == id && table_upto(sorted, n)[id]
                    == spec_of(sorted[k]),
        named_apart(sorted) ==> forall|k: int|
            0 <= k < n ==> table_upto(sorted, n)[#[trigger] exposed_identifier(sorted, k)]
                == spec_of(sorted[k]),
    decreases n,
{
    if n > 0 {
        lemma_table_upto(sorted, n - 1);
        let last = exposed_identifier(sorted, n - 1);
        let earlier = table_upto(sorted, n - 1);
        let now = table_upto(sorted, n);
        assert forall|id: Seq<char>| now.dom().contains(id) implies exists|k: int|
            0 <= k < n && exposed_identifier(sorted, k) == id && now[id] == spec_of(
                sorted[k],
            ) by {
            if id == last {
                assert(exposed_identifier(sorted, n - 1) == id);
            } else {
                let k = choose|k: int|
                    0 <= k < n - 1 && exposed_identifier(sorted, k) == id && earlier[id]
                        == spec_of(sorted[k]);
                assert(exposed_identifier(sorted, k) == id);
            }
        }
        assert forall|id: Seq<char>|
            (exists|k: int| 0 <= k < n && exposed_identifier(sorted, k) == id)
                implies now.dom().contains(id) by {
            let k = choose|k: int| 0 <= k < n && exposed_identifier(sorted, k) == id;
            if k < n - 1 {
                assert(earlier.dom().contains(id));
            }
        }
        if named_apart(sorted) {
            assert forall|k: int| 0 <= k < n implies now[#[trigger] exposed_identifier(
                sorted,
                k,
            )] == spec_of(sorted[k]) by {
                if k < n - 1 {
                    assert(exposed_identifier(sorted, k) != last);
                }
            }
        }
    }
}

/// Where no two packages are exposed under one identifier, every
/// identifier of the output is unique: the index names each identifier
/// once, the manifest has one entry for each entry of the index, and under
/// the identifier of an index entry it pins the package of that entry.
pub proof fn lemma_identifiers_unique(packages: Seq<PackageView>, s: Synthesis)
    requires
        synthesized(packages, s),
        named_apart(arranged(packages)),
    ensures
        forall|i: int, j: int|
            0 <= i < j < s.infos.len() ==> s.infos.deep_view()[i].id != s.infos.deep_view()[j].id,
        s.dependencies.ids().len() == s.infos.len(),
        forall|i: int|
            0 <= i < s.infos.len() ==> {
                let entry = #[trigger] s.infos.deep_view()[i];
                &&& s.dependencies.as_map().dom().contains(entry.id)
                &&& s.dependencies.as_map()[entry.id] == spec_of(arranged(packages)[i])
                &&& s.dependencies.as_map()[entry.id].package == entry.name
                &&& s.dependencies.as_map()[entry.id].version == entry.version
            },
{
    let sorted = arranged(packages);
    let n = sorted.len() as int;
    let index = s.infos.deep_view();
    let listed = Seq::new(sorted.len(), |i: int| exposed_identifier(sorted, i));
    let ids = s.dependencies.ids();
    lemma_table_upto(sorted, n);
    assert(index.len() == s.infos.len());
    assert(index.len() == n);
    assert forall|i: int| 0 <= i < index.len() implies {
        let entry = #[trigger] index[i];
        &&& s.dependencies.as_map().dom().contains(entry.id)
        &&& s.dependencies.as_map()[entry.id] == spec_of(sorted[i])
    } by {
        assert(index[i].id == exposed_identifier(sorted, i));
    }
    assert(listed.no_duplicates());
    lemma_ascending_distinct(ids);
    assert(ids.to_set() =~= listed.to_set()) by {
        assert forall|id: Seq<char>| ids.contains(id) <==> listed.contains(id) by {
            assert(s.dependencies.as_map().dom().contains(id) <==> ids.contains(id));
            if listed.contains(id) {
                let k = choose|k: int| 0 <= k < listed.len() && listed[k] == id;
                assert(exposed_identifier(sorted, k) == id);
            }
            if ids.contains(id) {
                let k = choose|k: int| 0 <= k < n && exposed_identifier(sorted, k) == id;
                assert(listed[k] == id);
            }
        }
    }
    ids.unique_seq_to_set();
    listed.unique_seq_to_set();
}

/// Of the versions of one library whose library targets are named alike,
/// no two that differ in a number are exposed under one identifier.
pub proof fn lemma_versions_named_apart(sorted: Seq<PackageView>, i: int, j: int)
    requires
        ordered(sorted),
        0 <= i < j < sorted.len(),
        sorted[i].name == sorted[j].name,
        canonical_identifier(sorted[i]) == canonical_identifier(sorted[j]),
        sorted[i].version.major != sorted[j].version.major || sorted[i].version.minor
            != sorted[j].version.minor || sorted[i].version.patch != sorted[j].version.patch,
    ensures
        exposed_identifier(sorted, i) != exposed_identifier(sorted, j),
{
    let base = canonical_identifier(sorted[i]);
    let tail_i = triple_text(sorted[i].version, seq!['_']);
    let tail_j = triple_text(sorted[j].version, seq!['_']);
    lemma_library_stands_together(sorted, i, j - 1, j);
    assert(!leads_run(sorted, j));
    assert(exposed_identifier(sorted, j) == base + seq!['_'] + tail_j);
    if leads_run(sorted, i) {
        assert(exposed_identifier(sorted, j).len() > base.len());
    } else if exposed_identifier(sorted, i) == exposed_identifier(sorted, j) {
        let a = base + seq!['_'] + tail_i;
        let b = base + seq!['_'] + tail_j;
        assert(tail_i =~= tail_j) by {
            assert(a.len() == b.len());
            assert forall|k: int| 0 <= k < tail_i.len() implies tail_i[k] == tail_j[k] by {
                assert(a[base.len() + 1 + k] == tail_i[k]);
                assert(b[base.len() + 1 + k] == tail_j[k]);
            }
        }
        lemma_triple_injective(sorted[i].version, sorted[j].version);
    }
}

/// In processing order the packages of one library stand together.
pub proof fn lemma_library_stands_together(sorted: Seq<PackageView>, i: int, k: int, j: int)
    requires
        ordered(sorted),
        0 <= i <= k <= j < sorted.len(),
        sorted[i].name == sorted[j].name,
    ensures
        sorted[k].name == sorted[i].name,
{
    if i < k {
        assert(!package_before(sorted[k], sorted[i]));
    }
    if k < j {
        assert(!package_before(sorted[j], sorted[k]));
    }
    if sorted[k].name != sorted[i].name {
        assert(i < k && k < j);
        assert(!text_before(sorted[k].name, sorted[i].name));
        assert(!text_before(sorted[i].name, sorted[k].name));
        lemma_text_connected(sorted[k].name, sorted[i].name);
    }
}

/// The package that is exposed under the bare canonical identifier is the
/// newest of its library: it stands before every other package of that
/// library, and none of them is of a later version.
pub proof fn lemma_leader_is_newest(packages: Seq<PackageView>, i: int, j: int)
    requires
        0 <= i < packages.len(),
        0 <= j < packages.len(),
        leads_run(arranged(packages), i),
        arranged(packages)[j].name == arranged(packages)[i].name,
    ensures
        i <= j,
        !version_before(arranged(packages)[i].version, arranged(packages)[j].version),
{
    let sorted = arranged(packages);
    lemma_arranged_ordered(packages);
    lemma_arranged_permutes(packages);
    crate::version::lemma_version_irreflexive(sorted[i].version);
    if j < i {
        lemma_library_stands_together(sorted, j, i - 1, i);
    } else if i < j {
        assert(!package_before(sorted[j], sorted[i]));
    }
}

/// Every library among the packages has exactly one package that leads:
/// one entry under the bare canonical identifier.
pub proof fn lemma_one_leader(packages: Seq<PackageView>, j: int)
    requires
        0 <= j < packages.len(),
    ensures
        exists|i: int|
            0 <= i <= j && #[trigger] leads_run(arranged(packages), i) && arranged(
                packages,
            )[i].name == arranged(packages)[j].name,
        forall|a: int, b: int|
            0 <= a < packages.len() && 0 <= b < packages.len() && leads_run(
                arranged(packages),
                a,
            ) && leads_run(arranged(packages), b) && arranged(packages)[a].name == arranged(
                packages,
            )[b].name ==> a == b,
{
    let sorted = arranged(packages);
    lemma_arranged_permutes(packages);
    lemma_leader_exists(sorted, j);
    assert forall|a: int, b: int|
        0 <= a < packages.len() && 0 <= b < packages.len() && leads_run(sorted, a) && leads_run(
            sorted,
            b,
        ) && sorted[a].name == sorted[b].name implies a == b by {
        lemma_leader_is_newest(packages, a, b);
        lemma_leader_is_newest(packages, b, a);
    }
}

proof fn lemma_leader_exists(sorted: Seq<PackageView>, j: int)
    requires
        0 <= j < sorted.len(),
    ensures
        exists|i: int|
            0 <= i <= j && #[trigger] leads_run(sorted, i) && sorted[i].name == sorted[j].name,
    decreases j,
{
    if leads_run(sorted, j) {
    } else {
        lemma_leader_exists(sorted, j - 1);
        let i = choose|i: int|
            0 <= i <= j - 1 && #[trigger] leads_run(sorted, i) && sorted[i].name == sorted[j
                - 1].name;
        assert(leads_run(sorted, i) && sorted[i].name == sorted[j].name);
    }
}

/// Each arranged package is one of the packages given, and each package
/// given is one of the arranged.
pub proof fn lemma_arranged_same_packages(packages: Seq<PackageView>)
    ensures
        forall|i: int|
            0 <= i < arranged(packages).len() ==> packages.contains(
                #[trigger] arranged(packages)[i],
            ),
        forall|i: int|
            0 <= i < packages.len() ==> arranged(packages).contains(#[trigger] packages[i]),
{
    broadcast use vstd::seq_lib::group_to_multiset_ensures;

    let sorted = arranged(packages);
    lemma_arranged_permutes(packages);
    assert forall|i: int| 0 <= i < sorted.len() implies packages.contains(
        #[trigger] sorted[i],
    ) by {
        assert(sorted.contains(sorted[i]));
        assert(sorted.to_multiset().count(sorted[i]) > 0);
    }
    assert forall|i: int| 0 <= i < packages.len() implies sorted.contains(
        #[trigger] packages[i],
    ) by {
        assert(packages.contains(packages[i]));
        assert(packages.to_multiset().count(packages[i]) > 0);
    }
}

/// A run hands something back for writing exactly if every package has a
/// library target.
pub proof fn lemma_missing_library(packages: Seq<PackageView>)
    ensures
        first_without_library(arranged(packages)) == arranged(packages).len() <==> forall|i: int|
            0 <= i < packages.len() ==> has_library(#[trigger] packages[i]),
{
    let sorted = arranged(packages);
    lemma_arranged_same_packages(packages);
    lemma_first_without_library(sorted);
    if first_without_library(sorted) == sorted.len() {
        assert forall|i: int| 0 <= i < packages.len() implies has_library(
            #[trigger] packages[i],
        ) by {
            let k = choose|k: int| 0 <= k < sorted.len() && sorted[k] == packages[i];
            assert(has_library(sorted[k]));
        }
    } else {
        let at = first_without_library(sorted);
        let k = choose|k: int| 0 <= k < packages.len() && packages[k] == sorted[at];
        assert(!has_library(packages[k]));
    }
}

/// A library that is kept out of the packages is named nowhere in the
/// output: neither in the index nor under any identifier of the manifest.
pub proof fn lemma_blacklist_kept_out(
    packages: Seq<PackageView>,
    banned: Seq<Seq<char>>,
    s: Synthesis,
)
    requires
        synthesized(packages, s),
        forall|i: int| 0 <= i < packages.len() ==> !banned.contains((#[trigger] packages[i]).name),
    ensures
        forall|i: int|
            0 <= i < s.infos.len() ==> !banned.contains((#[trigger] s.infos.deep_view()[i]).name),
        forall|id: Seq<char>|
            s.dependencies.as_map().dom().contains(id) ==> !banned.contains(
                (#[trigger] s.dependencies.as_map()[id]).package,
            ),
{
    let sorted = arranged(packages);
    lemma_arranged_same_packages(packages);
    lemma_table_upto(sorted, sorted.len() as int);
    assert(s.infos.deep_view().len() == s.infos.len());
    assert(s.infos.deep_view().len() == sorted.len());
    assert forall|k: int| 0 <= k < sorted.len() implies !banned.contains(
        (#[trigger] sorted[k]).name,
    ) by {
        let i = choose|i: int| 0 <= i < packages.len() && packages[i] == sorted[k];
        assert(!banned.contains(packages[i].name));
    }
    assert forall|i: int| 0 <= i < s.infos.len() implies !banned.contains(
        (#[trigger] s.infos.deep_view()[i]).name,
    ) by {
        assert(s.infos.deep_view()[i].name == sorted[i].name);
    }
    assert forall|id: Seq<char>|
        s.dependencies.as_map().dom().contains(id) implies !banned.contains(
        (#[trigger] s.dependencies.as_map()[id]).package,
    ) by {
        let k = choose|k: int|
            0 <= k < sorted.len() && exposed_identifier(sorted, k) == id && table_upto(
                sorted,
                sorted.len() as int,
            )[id] == spec_of(sorted[k]);
        assert(!banned.contains(sorted[k].name));
    }
}

} // verus!

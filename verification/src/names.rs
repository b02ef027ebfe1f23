//! Lists of texts kept in ascending order, each text once: what a sorted
//! set of strings is, held in a `Vec`.

use crate::text::{
    before, lemma_text_asymmetric, lemma_text_connected, lemma_text_irreflexive,
    lemma_text_transitive, same, text_before,
};
use vstd::prelude::*;
use vstd::string::*;

verus! {

/// Whether the texts stand in strictly ascending order.
pub open spec fn ascending(names: Seq<Seq<char>>) -> bool {
    forall|i: int, j: int| 0 <= i < j < names.len() ==> text_before(names[i], names[j])
}

/// The place of `name` in an ascending list: how many of its texts come
/// before `name`.
pub open spec fn rank(names: Seq<Seq<char>>, name: Seq<char>) -> int
    decreases names.len(),
{
    if names.len() == 0 {
        0
    } else if text_before(names.last(), name) {
        names.len() as int
    } else {
        rank(names.drop_last(), name)
    }
}

/// In an ascending list, the texts below the rank of `name` come before
/// it, and no text from the rank on does.
pub proof fn lemma_rank(names: Seq<Seq<char>>, name: Seq<char>)
    requires
        ascending(names),
    ensures
        0 <= rank(names, name) <= names.len(),
        forall|i: int| 0 <= i < rank(names, name) ==> text_before(#[trigger] names[i], name),
        forall|i: int|
            rank(names, name) <= i < names.len() ==> !text_before(#[trigger] names[i], name),
    decreases names.len(),
{
    if names.len() > 0 {
        if text_before(names.last(), name) {
            assert forall|i: int| 0 <= i < names.len() implies text_before(
                #[trigger] names[i],
                name,
            ) by {
                if i < names.len() - 1 {
                    lemma_text_transitive(names[i], names.last(), name);
                }
            }
        } else {
            let shorter = names.drop_last();
            assert(ascending(shorter)) by {
                assert forall|i: int, j: int| 0 <= i < j < shorter.len() implies text_before(
                    shorter[i],
                    shorter[j],
                ) by {
                    assert(shorter[i] == names[i] && shorter[j] == names[j]);
                }
            }
            lemma_rank(shorter, name);
            assert forall|i: int| 0 <= i < rank(names, name) implies text_before(
                #[trigger] names[i],
                name,
            ) by {
                assert(names[i] == shorter[i]);
            }
            assert forall|i: int| rank(names, name) <= i < names.len() implies !text_before(
                #[trigger] names[i],
                name,
            ) by {
                if i < names.len() - 1 {
                    assert(names[i] == shorter[i]);
                }
            }
        }
    }
}

/// In an ascending list each text stands at its own rank.
pub proof fn lemma_rank_of_member(names: Seq<Seq<char>>, i: int)
    requires
        ascending(names),
        0 <= i < names.len(),
    ensures
        rank(names, names[i]) == i,
{
    let r = rank(names, names[i]);
    lemma_rank(names, names[i]);
    lemma_text_irreflexive(names[i]);
    if i < r {
        assert(text_before(names[i], names[i]));
    } else if r < i {
        assert(text_before(names[r], names[i]));
        assert(!text_before(names[r], names[i]));
    }
}

/// The texts of a finite set in ascending order.
pub open spec fn in_order(set: Set<Seq<char>>) -> Seq<Seq<char>> {
    choose|list: Seq<Seq<char>>| ascending(list) && list.to_set() == set
}

/// An ascending list is the one that puts its texts in order.
pub proof fn lemma_in_order(list: Seq<Seq<char>>)
    requires
        ascending(list),
    ensures
        in_order(list.to_set()) == list,
{
    let other = in_order(list.to_set());
    assert(ascending(other) && other.to_set() == list.to_set());
    lemma_ascending_unique(other, list);
}

/// No text stands twice in an ascending list.
pub proof fn lemma_ascending_distinct(names: Seq<Seq<char>>)
    requires
        ascending(names),
    ensures
        names.no_duplicates(),
{
    assert forall|i: int, j: int| 0 <= i < names.len() && 0 <= j < names.len() && i != j implies
        names[i] != names[j] by {
        lemma_text_irreflexive(names[i]);
        if i < j {
            assert(text_before(names[i], names[j]));
        } else {
            assert(text_before(names[j], names[i]));
        }
    }
}

/// Two ascending lists that hold the same texts are the same list.
pub proof fn lemma_ascending_unique(a: Seq<Seq<char>>, b: Seq<Seq<char>>)
    requires
        ascending(a),
        ascending(b),
        a.to_set() == b.to_set(),
    ensures
        a == b,
    decreases a.len(),
{
    if a.len() == 0 {
        if b.len() > 0 {
            assert(b.to_set().contains(b[0]));
            assert(a.contains(b[0]));
        }
        assert(a =~= b);
    } else if b.len() == 0 {
        assert(a.to_set().contains(a[0]));
        assert(b.contains(a[0]));
    } else {
        // The last text of each list is the greatest text of the common set.
        let x = a.last();
        let y = b.last();
        assert(a.to_set().contains(x));
        assert(b.contains(x));
        assert(b.to_set().contains(y));
        assert(a.contains(y));
        let i = choose|i: int| 0 <= i < b.len() && b[i] == x;
        let j = choose|j: int| 0 <= j < a.len() && a[j] == y;
        if i < b.len() - 1 {
            assert(text_before(b[i], y));
            if j < a.len() - 1 {
                assert(text_before(a[j], x));
                lemma_text_asymmetric(x, y);
            }
            lemma_text_irreflexive(x);
        }
        assert(x == y);
        let a0 = a.drop_last();
        let b0 = b.drop_last();
        assert(ascending(a0)) by {
            assert forall|i: int, j: int| 0 <= i < j < a0.len() implies text_before(
                a0[i],
                a0[j],
            ) by {
                assert(a0[i] == a[i] && a0[j] == a[j]);
            }
        }
        assert(ascending(b0)) by {
            assert forall|i: int, j: int| 0 <= i < j < b0.len() implies text_before(
                b0[i],
                b0[j],
            ) by {
                assert(b0[i] == b[i] && b0[j] == b[j]);
            }
        }
        assert(a0.to_set() =~= b0.to_set()) by {
            assert forall|t: Seq<char>| a0.contains(t) implies b0.contains(t) by {
                let k = choose|k: int| 0 <= k < a0.len() && a0[k] == t;
                assert(a[k] == t);
                assert(text_before(a[k], x));
                assert(a.to_set().contains(t));
                assert(b.contains(t));
                let m = choose|m: int| 0 <= m < b.len() && b[m] == t;
                lemma_text_irreflexive(x);
                assert(m < b.len() - 1);
                assert(b0[m] == t);
            }
            assert forall|t: Seq<char>| b0.contains(t) implies a0.contains(t) by {
                let k = choose|k: int| 0 <= k < b0.len() && b0[k] == t;
                assert(b[k] == t);
                assert(text_before(b[k], y));
                assert(b.to_set().contains(t));
                assert(a.contains(t));
                let m = choose|m: int| 0 <= m < a.len() && a[m] == t;
                lemma_text_irreflexive(y);
                assert(m < a.len() - 1);
                assert(a0[m] == t);
            }
        }
        lemma_ascending_unique(a0, b0);
        assert(a =~= a0.push(x));
        assert(b =~= b0.push(y));
    }
}

/// How many texts of an ascending list come before `name`.
pub fn position(names: &Vec<String>, name: &str) -> (r: usize)
    requires
        ascending(names.deep_view()),
    ensures
        r == rank(names.deep_view(), name@),
        r <= names.len(),
{
    let ghost all = names.deep_view();
    proof {
        lemma_rank(all, name@);
    }
    let mut i: usize = 0;
    while i < names.len()
        invariant
            i <= names.len(),
            all == names.deep_view(),
            i <= rank(all, name@) <= names.len(),
            forall|k: int| 0 <= k < rank(all, name@) ==> text_before(#[trigger] all[k], name@),
            forall|k: int|
                rank(all, name@) <= k < all.len() ==> !text_before(#[trigger] all[k], name@),
        decreases names.len() - i,
    {
        if !before(names[i].as_str(), name) {
            assert(all[i as int] == names[i as int]@);
            return i;
        }
        assert(all[i as int] == names[i as int]@);
        i += 1;
    }
    i
}

/// Puts `name` into an ascending list, unless the list holds it already.
pub fn insert_name(names: &mut Vec<String>, name: String)
    requires
        ascending(old(names).deep_view()),
    ensures
        ascending(final(names).deep_view()),
        final(names).deep_view().to_set() == old(names).deep_view().to_set().insert(name@),
{
    let ghost was = names.deep_view();
    let at = position(names, name.as_str());
    proof {
        lemma_rank(was, name@);
    }
    if at < names.len() && same(names[at].as_str(), name.as_str()) {
        assert(was[at as int] == name@);
        assert(was.to_set() =~= was.to_set().insert(name@));
        return ;
    }
    names.insert(at, name);
    proof {
        let now = names.deep_view();
        assert(now =~= was.insert(at as int, name@));
        assert forall|i: int, j: int| 0 <= i < j < now.len() implies text_before(
            now[i],
            now[j],
        ) by {
            if j == at {
                assert(now[i] == was[i]);
            } else if i == at {
                assert(now[j] == was[j - 1]);
                assert(!text_before(was[j - 1], name@));
                if at < was.len() {
                    assert(was[at as int] != name@);
                }
                if !text_before(name@, was[j - 1]) {
                    lemma_text_connected(name@, was[j - 1]);
                    if j - 1 > at {
                        assert(text_before(was[at as int], was[j - 1]));
                    }
                }
            } else {
                let i0 = if i < at { i } else { i - 1 };
                let j0 = if j < at { j } else { j - 1 };
                assert(now[i] == was[i0] && now[j] == was[j0]);
            }
        }
        assert(now.to_set() =~= was.to_set().insert(name@)) by {
            assert forall|t: Seq<char>| now.contains(t) implies was.contains(t) || t
                == name@ by {
                let k = choose|k: int| 0 <= k < now.len() && now[k] == t;
                if k < at {
                    assert(was[k] == t);
                } else if k > at {
                    assert(was[k - 1] == t);
                }
            }
            assert forall|t: Seq<char>| was.contains(t) || t == name@ implies now.contains(
                t,
            ) by {
                if t == name@ {
                    assert(now[at as int] == t);
                } else {
                    let k = choose|k: int| 0 <= k < was.len() && was[k] == t;
                    if k < at {
                        assert(now[k] == t);
                    } else {
                        assert(now[k + 1] == t);
                    }
                }
            }
        }
    }
}

/// Takes `name` out of an ascending list, if the list holds it.
pub fn remove_name(names: &mut Vec<String>, name: &str)
    requires
        ascending(old(names).deep_view()),
    ensures
        ascending(final(names).deep_view()),
        final(names).deep_view().to_set() == old(names).deep_view().to_set().remove(name@),
{
    let ghost was = names.deep_view();
    let at = position(names, name);
    proof {
        lemma_rank(was, name@);
        lemma_ascending_distinct(was);
    }
    if at < names.len() && same(names[at].as_str(), name) {
        assert(was[at as int] == name@);
        let _ = names.remove(at);
        proof {
            let now = names.deep_view();
            assert(now =~= was.remove(at as int));
            assert forall|i: int, j: int| 0 <= i < j < now.len() implies text_before(
                now[i],
                now[j],
            ) by {
                let i0 = if i < at { i } else { i + 1 };
                let j0 = if j < at { j } else { j + 1 };
                assert(now[i] == was[i0] && now[j] == was[j0]);
            }
            assert(now.to_set() =~= was.to_set().remove(name@)) by {
                assert forall|t: Seq<char>| now.contains(t) implies was.contains(t) && t
                    != name@ by {
                    let k = choose|k: int| 0 <= k < now.len() && now[k] == t;
                    let k0 = if k < at { k } else { k + 1 };
                    assert(was[k0] == t);
                }
                assert forall|t: Seq<char>| was.contains(t) && t != name@ implies now.contains(
                    t,
                ) by {
                    let k = choose|k: int| 0 <= k < was.len() && was[k] == t;
                    if k < at {
                        assert(now[k] == t);
                    } else {
                        assert(now[k - 1] == t);
                    }
                }
            }
        }
    } else {
        proof {
            assert(!was.contains(name@)) by {
                if was.contains(name@) {
                    let k = choose|k: int| 0 <= k < was.len() && was[k] == name@;
                    lemma_text_irreflexive(name@);
                    if k >= at {
                        if k > at {
                            assert(text_before(was[at as int], was[k]));
                        }
                    }
                }
            }
            assert(was.to_set() =~= was.to_set().remove(name@));
        }
    }
}

} // verus!

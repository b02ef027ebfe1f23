//! The candidate set: the popular libraries and the hand-picked additions,
//! without the blacklisted ones.

use crate::text::listed;
use vstd::prelude::*;
use vstd::string::*;

verus! {

/// A library, as the popularity list names it.
#[derive(Clone, Debug, PartialEq, Eq)]
pub struct Crate {
    pub name: String,
}

impl DeepView for Crate {
    type V = Seq<char>;

    open spec fn deep_view(&self) -> Seq<char> {
        self.name@
    }
}

/// The popularity list, in the order in which it was received.
#[derive(Clone, Debug, PartialEq, Eq)]
pub struct TopCrates {
    pub crates: Vec<Crate>,
}

/// Hand-curated changes to the list of libraries.
#[derive(Clone, Debug, PartialEq, Eq)]
pub struct Modifications {
    /// Libraries that must not be offered.
    pub blacklist: Vec<String>,
    /// Libraries that are offered whatever their popularity.
    pub additions: Vec<String>,
}

/// The names of `names` in the order in which each occurs first, without
/// those that `blacklist` holds.
pub open spec fn candidate_names(names: Seq<Seq<char>>, blacklist: Seq<Seq<char>>) -> Seq<
    Seq<char>,
>
    decreases names.len(),
{
    if names.len() == 0 {
        Seq::empty()
    } else {
        let earlier = candidate_names(names.drop_last(), blacklist);
        let name = names.last();
        if blacklist.contains(name) || earlier.contains(name) {
            earlier
        } else {
            earlier.push(name)
        }
    }
}

/// What the candidate set holds: each name that is listed and not
/// blacklisted, once.
pub proof fn lemma_candidate_names(names: Seq<Seq<char>>, blacklist: Seq<Seq<char>>)
    ensures
        forall|name: Seq<char>|
            candidate_names(names, blacklist).contains(name) <==> names.contains(name)
                && !blacklist.contains(name),
        candidate_names(names, blacklist).no_duplicates(),
    decreases names.len(),
{
    let all = candidate_names(names, blacklist);
    if names.len() > 0 {
        let earlier = candidate_names(names.drop_last(), blacklist);
        let last = names.last();
        lemma_candidate_names(names.drop_last(), blacklist);
        assert forall|name: Seq<char>|
            all.contains(name) <==> names.contains(name) && !blacklist.contains(name) by {
            if names.contains(name) {
                let i = choose|i: int| 0 <= i < names.len() && names[i] == name;
                if i < names.len() - 1 {
                    assert(names.drop_last()[i] == name);
                }
            }
            if names.drop_last().contains(name) {
                let i = choose|i: int|
                    0 <= i < names.drop_last().len() && names.drop_last()[i] == name;
                assert(names[i] == name);
            }
            if earlier.contains(name) {
                let i = choose|i: int| 0 <= i < earlier.len() && earlier[i] == name;
                if all.len() > earlier.len() {
                    assert(all[i] == name);
                }
            }
            if all.contains(name) && all.len() > earlier.len() {
                let i = choose|i: int| 0 <= i < all.len() && all[i] == name;
                if i < earlier.len() {
                    assert(earlier[i] == name);
                } else {
                    assert(names[names.len() - 1] == name);
                }
            }
            if name == last && all.len() > earlier.len() {
                assert(all[all.len() - 1] == name);
            }
            if name == last {
                assert(names[names.len() - 1] == name);
            }
        }
    }
}

impl Modifications {
    /// The blacklist, as texts.
    pub open spec fn banned(&self) -> Seq<Seq<char>> {
        self.blacklist.deep_view()
    }

    /// The additions, as texts.
    pub open spec fn added(&self) -> Seq<Seq<char>> {
        self.additions.deep_view()
    }

    /// Whether the blacklist holds `name`.
    pub fn blacklisted(&self, name: &str) -> (r: bool)
        ensures
            r == self.banned().contains(name@),
    {
        listed(&self.blacklist, name)
    }
}

impl TopCrates {
    /// The names on the list, in order.
    pub open spec fn names(&self) -> Seq<Seq<char>> {
        self.crates.deep_view()
    }

    /// Puts the hand-picked additions behind the libraries already listed.
    pub fn add_curated_crates(&mut self, modifications: &Modifications)
        ensures
            final(self).names() == old(self).names() + modifications.added(),
    {
        let mut i: usize = 0;
        while i < modifications.additions.len()
            invariant
                i <= modifications.additions.len(),
                self.names() == old(self).names() + modifications.added().take(i as int),
            decreases modifications.additions.len() - i,
        {
            let name = modifications.additions[i].clone();
            proof {
                assert(modifications.added().take(i + 1) =~= modifications.added().take(
                    i as int,
                ).push(name@));
            }
            let ghost listed_before = self.names();
            self.crates.push(Crate { name });
            assert(self.names() =~= listed_before.push(name@));
            i += 1;
        }
        proof {
            assert(modifications.added().take(modifications.additions.len() as int)
                =~= modifications.added());
        }
    }

    /// The candidate set: every listed name that is not blacklisted, once,
    /// in the order in which the names occur first.
    pub fn candidates(&self, modifications: &Modifications) -> (r: Vec<String>)
        ensures
            r.deep_view() == candidate_names(self.names(), modifications.banned()),
            r.deep_view().no_duplicates(),
            forall|name: Seq<char>|
                r.deep_view().contains(name) <==> self.names().contains(name)
                    && !modifications.banned().contains(name),
    {
        let mut out: Vec<String> = Vec::new();
        let mut i: usize = 0;
        proof {
            assert(out.deep_view() =~= candidate_names(
                self.names().take(0),
                modifications.banned(),
            ));
        }
        while i < self.crates.len()
            invariant
                i <= self.crates.len(),
                out.deep_view() == candidate_names(
                    self.names().take(i as int),
                    modifications.banned(),
                ),
            decreases self.crates.len() - i,
        {
            let name = &self.crates[i].name;
            proof {
                assert(self.names().take(i + 1).drop_last() =~= self.names().take(i as int));
                assert(self.names().take(i + 1).last() == name@);
            }
            if !modifications.blacklisted(name.as_str()) && !listed(&out, name.as_str()) {
                let ghost before = out.deep_view();
                out.push(name.clone());
                assert(out.deep_view() =~= before.push(name@));
            }
            i += 1;
        }
        proof {
            assert(self.names().take(self.crates.len() as int) =~= self.names());
            lemma_candidate_names(self.names(), modifications.banned());
        }
        out
    }
}

/// The candidate set of a run: the popular libraries and the additions,
/// without the blacklisted ones, each once.
pub fn candidate_set(top: TopCrates, modifications: &Modifications) -> (r: Vec<String>)
    ensures
        r.deep_view() == candidate_names(
            top.names() + modifications.added(),
            modifications.banned(),
        ),
        r.deep_view().no_duplicates(),
        forall|name: Seq<char>|
            r.deep_view().contains(name) <==> (top.names().contains(name)
                || modifications.added().contains(name)) && !modifications.banned().contains(name),
{
    let mut top = top;
    let ghost popular = top.names();
    top.add_curated_crates(modifications);
    let r = top.candidates(modifications);
    proof {
        let all = popular + modifications.added();
        assert forall|name: Seq<char>| all.contains(name) <==> popular.contains(name)
            || modifications.added().contains(name) by {
            if all.contains(name) {
                let i = choose|i: int| 0 <= i < all.len() && all[i] == name;
                if i < popular.len() {
                    assert(popular[i] == name);
                } else {
                    assert(modifications.added()[i - popular.len()] == name);
                }
            }
            if popular.contains(name) {
                let i = choose|i: int| 0 <= i < popular.len() && popular[i] == name;
                assert(all[i] == name);
            }
            if modifications.added().contains(name) {
                let i = choose|i: int|
                    0 <= i < modifications.added().len() && modifications.added()[i] == name;
                assert(all[popular.len() + i] == name);
            }
        }
    }
    r
}

} // verus!

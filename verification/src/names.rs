//! Tables that map one name to another.

use vstd::prelude::*;

use crate::text;

verus! {

/// The name that `table` gives for `name`: its entry, or the name itself.
pub open spec fn resolved(table: Map<Seq<char>, Seq<char>>, name: Seq<char>) -> Seq<char> {
    if table.contains_key(name) {
        table[name]
    } else {
        name
    }
}

/// The table after each pair in turn; a later pair replaces an earlier one of
/// the same name.
pub open spec fn tabulated(pairs: Seq<(Seq<char>, Seq<char>)>) -> Map<Seq<char>, Seq<char>>
    decreases pairs.len(),
{
    if pairs.len() == 0 {
        Map::empty()
    } else {
        tabulated(pairs.drop_last()).insert(pairs.last().0, pairs.last().1)
    }
}

/// The pairs as texts.
pub open spec fn pair_texts(pairs: Seq<(String, String)>) -> Seq<(Seq<char>, Seq<char>)> {
    pairs.map_values(|p: (String, String)| (p.0@, p.1@))
}

/// A table from old names to new ones. No name has two entries.
#[derive(Debug)]
pub struct NameTable {
    names: Vec<String>,
    targets: Vec<String>,
}

impl View for NameTable {
    type V = Map<Seq<char>, Seq<char>>;

    closed spec fn view(&self) -> Map<Seq<char>, Seq<char>> {
        Map::new(
            |name: Seq<char>| self.names.deep_view().contains(name),
            |name: Seq<char>| self.targets.deep_view()[self.names.deep_view().index_of(name)],
        )
    }
}

/// The position of a name in an ascending list is the only one.
proof fn lemma_ascending_position(names: Seq<Seq<char>>, i: int)
    requires
        text::ascending(names),
        0 <= i < names.len(),
    ensures
        names.contains(names[i]),
        names.index_of(names[i]) == i,
{
    let j = names.index_of(names[i]);
    assert(names[i] == names[i]);
    assert(0 <= j < names.len() && names[j] == names[i]);
    if i < j {
        assert(text::precedes(names[i], names[j]));
        text::lemma_precedes_irreflexive(names[i]);
    } else if j < i {
        assert(text::precedes(names[j], names[i]));
        text::lemma_precedes_irreflexive(names[i]);
    }
}

impl NameTable {
    #[verifier::type_invariant]
    spec fn well_formed(self) -> bool {
        text::ascending(self.names.deep_view()) && self.names@.len() == self.targets@.len()
    }

    /// The empty table.
    pub fn new() -> (table: NameTable)
        ensures
            table@ == Map::<Seq<char>, Seq<char>>::empty(),
    {
        let table = NameTable { names: Vec::new(), targets: Vec::new() };
        assert(table@ =~= Map::<Seq<char>, Seq<char>>::empty());
        table
    }

    /// The table with these entries; of several entries of one name the last
    /// counts.
    pub fn from_pairs(pairs: Vec<(String, String)>) -> (table: NameTable)
        ensures
            table@ == tabulated(pair_texts(pairs@)),
    {
        let mut table = NameTable::new();
        let mut i: usize = 0;
        while i < pairs.len()
            invariant
                i <= pairs.len(),
                table@ == tabulated(pair_texts(pairs@).take(i as int)),
            decreases pairs.len() - i,
        {
            table = table.insert(pairs[i].0.clone(), pairs[i].1.clone());
            proof {
                let all = pair_texts(pairs@);
                assert(all.take(i + 1).drop_last() =~= all.take(i as int));
            }
            i += 1;
        }
        assert(pair_texts(pairs@).take(i as int) =~= pair_texts(pairs@));
        table
    }

    /// The first position whose name does not come before `name`.
    fn position(&self, name: &str) -> (at: usize)
        ensures
            at <= self.names@.len(),
            forall|k: int|
                0 <= k < at ==> text::precedes(#[trigger] self.names.deep_view()[k], name@),
            at < self.names@.len() ==> !text::precedes(self.names.deep_view()[at as int], name@),
    {
        proof {
            use_type_invariant(self);
        }
        let ghost names = self.names.deep_view();
        let mut low: usize = 0;
        let mut high: usize = self.names.len();
        while low < high
            invariant
                low <= high <= names.len(),
                names == self.names.deep_view(),
                text::ascending(names),
                forall|k: int| 0 <= k < low ==> text::precedes(#[trigger] names[k], name@),
                high < names.len() ==> !text::precedes(names[high as int], name@),
            decreases high - low,
        {
            let middle: usize = low + (high - low) / 2;
            if text::text_precedes(self.names[middle].as_str(), name) {
                proof {
                    assert forall|k: int| 0 <= k < middle + 1 implies text::precedes(
                        #[trigger] names[k],
                        name@,
                    ) by {
                        if k < middle {
                            assert(text::precedes(names[k], names[middle as int]));
                            text::lemma_precedes_transitive(names[k], names[middle as int], name@);
                        }
                    }
                }
                low = middle + 1;
            } else {
                high = middle;
            }
        }
        low
    }

    /// The table with an entry for `name`, in place of the one it may have.
    pub fn insert(self, name: String, target: String) -> (table: NameTable)
        ensures
            table@ == self@.insert(name@, target@),
    {
        proof {
            use_type_invariant(&self);
        }
        let ghost names = self.names.deep_view();
        let ghost targets = self.targets.deep_view();
        let ghost (n, t) = (name@, target@);
        let at = self.position(name.as_str());
        let NameTable { names: mut kept, targets: mut kept_targets } = self;
        if at < kept.len() && text::same_text(kept[at].as_str(), name.as_str()) {
            kept_targets.set(at, target);
            proof {
                lemma_ascending_position(names, at as int);
                assert(kept_targets.deep_view() =~= targets.update(at as int, t));
            }
            let table = NameTable { names: kept, targets: kept_targets };
            proof {
                assert forall|m: Seq<char>| names.contains(m) && m != n implies table@[m]
                    == self@[m] by {
                    let k = names.index_of(m);
                    assert(names[k] == m);
                }
                assert(table@ =~= self@.insert(n, t));
            }
            return table;
        }
        proof {
            if at < names.len() {
                text::lemma_precedes_total(names[at as int], n);
            }
        }
        kept.insert(at, name);
        kept_targets.insert(at, target);
        proof {
            let after = kept.deep_view();
            assert(after =~= names.insert(at as int, n));
            assert(kept_targets.deep_view() =~= targets.insert(at as int, t));
            assert forall|p: int, q: int| 0 <= p < q < after.len() implies #[trigger] text::precedes(
                after[p],
                after[q],
            ) by {
                if q < at {
                    assert(text::precedes(names[p], names[q]));
                } else if p < at && q > at {
                    assert(text::precedes(names[p], names[q - 1]));
                } else if p == at {
                    if q - 1 > at {
                        assert(text::precedes(names[at as int], names[q - 1]));
                        text::lemma_precedes_transitive(n, names[at as int], names[q - 1]);
                    }
                } else if p > at {
                    assert(text::precedes(names[p - 1], names[q - 1]));
                }
            }
        }
        let table = NameTable { names: kept, targets: kept_targets };
        proof {
            let after = table.names.deep_view();
            lemma_ascending_position(after, at as int);
            assert forall|m: Seq<char>| after.contains(m) <==> (names.contains(m) || m == n) by {
                if after.contains(m) {
                    let k = choose|k: int| 0 <= k < after.len() && after[k] == m;
                    if k < at {
                        assert(names[k] == m);
                    } else if k > at {
                        assert(names[k - 1] == m);
                    }
                }
                if names.contains(m) {
                    let k = choose|k: int| 0 <= k < names.len() && names[k] == m;
                    if k < at {
                        assert(after[k] == m);
                    } else {
                        assert(after[k + 1] == m);
                    }
                }
                assert(after[at as int] == n);
            }
            assert forall|m: Seq<char>| names.contains(m) && m != n implies table@[m] == self@[m] by {
                let k = names.index_of(m);
                assert(names[k] == m);
                let moved = if k < at {
                    k
                } else {
                    k + 1
                };
                assert(after[moved] == m);
                lemma_ascending_position(after, moved);
            }
            assert(table@ =~= self@.insert(n, t));
        }
        table
    }

    /// The entry of `name`, or `name` itself where it has none.
    pub fn resolve(&self, name: &str) -> (target: String)
        ensures
            target@ == resolved(self@, name@),
    {
        let at = self.position(name);
        proof {
            use_type_invariant(self);
        }
        let ghost names = self.names.deep_view();
        if at < self.names.len() && text::same_text(self.names[at].as_str(), name) {
            proof {
                lemma_ascending_position(names, at as int);
            }
            return self.targets[at].clone();
        }
        proof {
            if names.contains(name@) {
                let k = choose|k: int| 0 <= k < names.len() && names[k] == name@;
                text::lemma_precedes_irreflexive(name@);
                if k > at {
                    assert(text::precedes(names[at as int], names[k]));
                }
            }
        }
        name.to_owned()
    }
}

impl Clone for NameTable {
    fn clone(&self) -> (copy: Self)
        ensures
            copy@ == self@,
    {
        proof {
            use_type_invariant(self);
        }
        let names = self.names.clone();
        let targets = self.targets.clone();
        assert(names.deep_view() =~= self.names.deep_view());
        assert(targets.deep_view() =~= self.targets.deep_view());
        NameTable { names, targets }
    }
}

impl Default for NameTable {
    fn default() -> (table: NameTable)
        ensures
            table@ == Map::<Seq<char>, Seq<char>>::empty(),
    {
        NameTable::new()
    }
}

/// A name that the table has an entry for resolves to that entry, whatever
/// entry that one has; every other name resolves to itself.
pub proof fn law_names_resolve_once(table: Map<Seq<char>, Seq<char>>, name: Seq<char>)
    ensures
        table.contains_key(name) ==> resolved(table, name) == table[name],
        !table.contains_key(name) ==> resolved(table, name) == name,
{
}

/// A table of pairs has an entry for the first text of each pair and for no
/// other, and of several pairs with one first text the last counts.
pub proof fn law_last_pairs_count(pairs: Seq<(Seq<char>, Seq<char>)>)
    ensures
        forall|i: int|
            0 <= i < pairs.len() ==> tabulated(pairs).contains_key((#[trigger] pairs[i]).0),
        forall|name: Seq<char>| #[trigger]
            tabulated(pairs).contains_key(name) ==> exists|i: int|
                0 <= i < pairs.len() && (#[trigger] pairs[i]).0 == name && pairs[i].1 == tabulated(
                    pairs,
                )[name] && forall|j: int|
                    i < j < pairs.len() ==> (#[trigger] pairs[j]).0 != name,
    decreases pairs.len(),
{
    if pairs.len() > 0 {
        let front = pairs.drop_last();
        let n = pairs.len() - 1;
        law_last_pairs_count(front);
        assert(pairs[n] == pairs.last());
        assert forall|i: int| 0 <= i < pairs.len() implies tabulated(pairs).contains_key(
            (#[trigger] pairs[i]).0,
        ) by {
            if i < n {
                assert(tabulated(front).contains_key(front[i].0));
            }
        }
        assert forall|name: Seq<char>| #[trigger] tabulated(pairs).contains_key(name) implies exists|
            i: int,
        |
            0 <= i < pairs.len() && (#[trigger] pairs[i]).0 == name && pairs[i].1 == tabulated(
                pairs,
            )[name] && forall|j: int| i < j < pairs.len() ==> (#[trigger] pairs[j]).0 != name by {
            if pairs.last().0 == name {
                assert(pairs[n].0 == name);
            } else {
                assert(tabulated(front).contains_key(name));
                let i = choose|i: int|
                    0 <= i < front.len() && (#[trigger] front[i]).0 == name && front[i].1
                        == tabulated(front)[name] && forall|j: int|
                        i < j < front.len() ==> (#[trigger] front[j]).0 != name;
                assert forall|j: int| i < j < pairs.len() implies (#[trigger] pairs[j]).0 != name by {
                    if j < n {
                        assert(front[j].0 != name);
                    }
                }
                assert(pairs[i].0 == name);
            }
        }
    }
}

} // verus!

//! The transit-network record: one physical or logical network, the set of
//! datacenter identifiers it connects, and its bandwidth and cost figures.

use vstd::prelude::*;

verus! {

/// Mathematical view of a [`Network`]: its label, bandwidth capacity, usage
/// cost in whole cost units, and the distinct datacenter identifiers it
/// reaches, in first-occurrence order.
pub struct NetworkModel {
    pub name: Seq<char>,
    pub bandwidth: u64,
    pub cost: u64,
    pub datacenters: Seq<Seq<char>>,
}

impl NetworkModel {
    /// The identifiers are pairwise distinct: the list stands for a set.
    pub open spec fn wf(self) -> bool {
        forall|i: int, j: int|
            0 <= i < j < self.datacenters.len() ==> self.datacenters[i] != self.datacenters[j]
    }
}

/// The scalar quantity a shortest-path query minimizes.
#[derive(Clone, Copy, PartialEq, Eq, Structural, Debug)]
pub enum Objective {
    Cost,
    Bandwidth,
}

/// Keeps the first occurrence of each identifier and drops later repeats.
pub open spec fn dedup_ids(ids: Seq<Seq<char>>) -> Seq<Seq<char>>
    decreases ids.len(),
{
    if ids.len() == 0 {
        ids
    } else {
        let fore = dedup_ids(ids.drop_last());
        if ids.drop_last().contains(ids.last()) {
            fore
        } else {
            fore.push(ids.last())
        }
    }
}

pub proof fn lemma_dedup_ids_contains(ids: Seq<Seq<char>>, id: Seq<char>)
    ensures
        dedup_ids(ids).contains(id) <==> ids.contains(id),
    decreases ids.len(),
{
    if ids.len() > 0 {
        let rest = ids.drop_last();
        let tail = ids.last();
        lemma_dedup_ids_contains(rest, id);
        assert(ids.contains(id) <==> (rest.contains(id) || tail == id)) by {
            if ids.contains(id) {
                let i = choose|i: int| 0 <= i < ids.len() && ids[i] == id;
                if i < ids.len() - 1 {
                    assert(rest[i] == id);
                }
            }
            if rest.contains(id) {
                let i = choose|i: int| 0 <= i < rest.len() && rest[i] == id;
                assert(ids[i] == id);
            }
            if tail == id {
                assert(ids[ids.len() - 1] == id);
            }
        }
        let fore = dedup_ids(rest);
        if !rest.contains(tail) {
            assert(fore.push(tail).contains(id) <==> (fore.contains(id) || tail == id)) by {
                if fore.contains(id) {
                    let i = choose|i: int| 0 <= i < fore.len() && fore[i] == id;
                    assert(fore.push(tail)[i] == id);
                }
                if tail == id {
                    assert(fore.push(tail)[fore.len() as int] == id);
                }
                if fore.push(tail).contains(id) {
                    let i = choose|i: int|
                        0 <= i < fore.push(tail).len() && fore.push(tail)[i] == id;
                    if i < fore.len() {
                        assert(fore[i] == id);
                    }
                }
            }
        }
    }
}

pub proof fn lemma_dedup_ids_distinct(ids: Seq<Seq<char>>)
    ensures
        forall|i: int, j: int|
            0 <= i < j < dedup_ids(ids).len() ==> dedup_ids(ids)[i] != dedup_ids(ids)[j],
        dedup_ids(ids).len() <= ids.len(),
    decreases ids.len(),
{
    if ids.len() > 0 {
        lemma_dedup_ids_distinct(ids.drop_last());
        lemma_dedup_ids_contains(ids.drop_last(), ids.last());
        let fore = dedup_ids(ids.drop_last());
        if !ids.drop_last().contains(ids.last()) {
            assert(forall|i: int| 0 <= i < fore.len() ==> fore[i] != ids.last()) by {
                assert(forall|i: int|
                    0 <= i < fore.len() ==> fore.contains(#[trigger] fore[i]));
            }
        }
    }
}

/// One transit network: a label, a bandwidth capacity, a usage cost in
/// whole cost units, and the set of datacenter identifiers it connects.
/// The set is held deduplicated, in first-occurrence order, and is never
/// mutated once the record is built.
#[derive(Debug)]
pub struct Network {
    name: String,
    bandwidth: u64,
    cost: u64,
    datacenters: Vec<String>,
}

impl View for Network {
    type V = NetworkModel;

    closed spec fn view(&self) -> NetworkModel {
        NetworkModel {
            name: self.name@,
            bandwidth: self.bandwidth,
            cost: self.cost,
            datacenters: self.datacenters.deep_view(),
        }
    }
}

/// Whether `ids` holds a string whose characters are `id`.
fn ids_contain(ids: &Vec<String>, id: &String) -> (r: bool)
    ensures
        r == ids.deep_view().contains(id@),
{
    let mut i: usize = 0;
    while i < ids.len()
        invariant
            0 <= i <= ids.len(),
            forall|k: int| 0 <= k < i ==> ids.deep_view()[k] != id@,
        decreases ids.len() - i,
    {
        if ids[i].eq(id) {
            assert(ids.deep_view()[i as int] == id@);
            return true;
        }
        assert(ids.deep_view()[i as int] != id@);
        i += 1;
    }
    assert(forall|k: int| 0 <= k < ids.deep_view().len() ==> ids.deep_view()[k] != id@);
    false
}

impl Network {
    /// Builds a record; repeated datacenter identifiers collapse to one.
    pub fn new(name: String, bandwidth: u64, cost: u64, datacenters: Vec<String>) -> (r: Network)
        ensures
            r@.name == name@,
            r@.bandwidth == bandwidth,
            r@.cost == cost,
            r@.datacenters == dedup_ids(datacenters.deep_view()),
            forall|id: Seq<char>|
                r@.datacenters.contains(id) <==> datacenters.deep_view().contains(id),
            r@.wf(),
    {
        let ghost all = datacenters.deep_view();
        let mut kept: Vec<String> = Vec::new();
        let mut i: usize = 0;
        while i < datacenters.len()
            invariant
                0 <= i <= datacenters.len(),
                kept.deep_view() == dedup_ids(all.take(i as int)),
                all == datacenters.deep_view(),
            decreases datacenters.len() - i,
        {
            proof {
                assert(all.take(i + 1 as int).drop_last() =~= all.take(i as int));
                assert(all.take(i + 1 as int).last() == all[i as int]);
                lemma_dedup_ids_contains(all.take(i as int), all[i as int]);
            }
            let ghost kept_before = kept.deep_view();
            if !ids_contain(&kept, &datacenters[i]) {
                kept.push(datacenters[i].clone());
                assert(kept.deep_view() =~= kept_before.push(all[i as int]));
            }
            assert(kept.deep_view() =~= dedup_ids(all.take(i + 1 as int)));
            i += 1;
        }
        proof {
            assert(all.take(datacenters.len() as int) =~= all);
            lemma_dedup_ids_distinct(all);
            assert forall|id: Seq<char>|
                dedup_ids(all).contains(id) <==> all.contains(id) by {
                lemma_dedup_ids_contains(all, id);
            }
        }
        Network { name, bandwidth, cost, datacenters: kept }
    }

    /// The network's label.
    pub fn name(&self) -> (r: &String)
        ensures
            r@ == self@.name,
    {
        &self.name
    }

    /// The network's bandwidth capacity.
    pub fn bandwidth(&self) -> (r: u64)
        ensures
            r == self@.bandwidth,
    {
        self.bandwidth
    }

    /// The network's usage cost, in whole cost units.
    pub fn cost(&self) -> (r: u64)
        ensures
            r == self@.cost,
    {
        self.cost
    }

    /// The distinct datacenter identifiers this network connects.
    pub fn datacenters(&self) -> (r: &Vec<String>)
        ensures
            r.deep_view() == self@.datacenters,
    {
        &self.datacenters
    }

    /// The edge weight this network contributes under an objective.
    pub fn weight_under(&self, obj: Objective) -> (r: u64)
        ensures
            r == scalar_under(self@.cost, self@.bandwidth, obj),
    {
        match obj {
            Objective::Cost => self.cost,
            Objective::Bandwidth => self.bandwidth,
        }
    }
}

/// The objective a query string names: exactly `"cost"` and `"bandwidth"`
/// are recognized.
pub open spec fn objective_of(s: Seq<char>) -> Option<Objective> {
    if s == "cost"@ {
        Some(Objective::Cost)
    } else if s == "bandwidth"@ {
        Some(Objective::Bandwidth)
    } else {
        None
    }
}

/// Selects the cost or the bandwidth figure, as the objective asks.
pub open spec fn scalar_under(cost: u64, bandwidth: u64, obj: Objective) -> u64 {
    match obj {
        Objective::Cost => cost,
        Objective::Bandwidth => bandwidth,
    }
}

impl Clone for Network {
    /// An edge carries a value copy of its network: the copy's view equals
    /// the source value's.
    fn clone(&self) -> (r: Self)
        ensures
            r@ == self@,
    {
        let mut ids: Vec<String> = Vec::new();
        let mut i: usize = 0;
        while i < self.datacenters.len()
            invariant
                0 <= i <= self.datacenters.len(),
                ids.deep_view() == self.datacenters.deep_view().take(i as int),
            decreases self.datacenters.len() - i,
        {
            let ghost before = ids.deep_view();
            ids.push(self.datacenters[i].clone());
            proof {
                assert(ids.deep_view() =~= before.push(self.datacenters.deep_view()[i as int]));
                assert(ids.deep_view() =~= self.datacenters.deep_view().take(i + 1 as int));
            }
            i += 1;
        }
        proof {
            assert(self.datacenters.deep_view().take(self.datacenters.len() as int)
                =~= self.datacenters.deep_view());
        }
        Network {
            name: self.name.clone(),
            bandwidth: self.bandwidth,
            cost: self.cost,
            datacenters: ids,
        }
    }
}

} // verus!

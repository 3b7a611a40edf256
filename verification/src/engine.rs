//! The tables of a query as the search holds them, and the steps that change
//! them.
use crate::rounds;
use crate::rounds::{label, State};
use crate::timetable::{Route, Stop, Tau, K, UNREACHED};
use std::collections::{BTreeMap, BTreeSet};
use vstd::prelude::*;

verus! {

broadcast use vstd::laws_cmp::group_laws_cmp;

/// The tables of a query.
pub(crate) struct Search {
    pub labels: BTreeMap<Stop, Tau>,
    pub best: BTreeMap<Stop, Tau>,
    pub tree: BTreeMap<(K, Stop), (Stop, Route)>,
    pub marked: BTreeSet<Stop>,
}

impl Search {
    /// The tables as the rounds speak of them.
    pub(crate) open spec fn view(&self) -> State {
        State {
            labels: self.labels@,
            best: self.best@,
            tree: self.tree@,
            marked: self.marked@,
        }
    }
}

/// The arrival time that `labels` holds for `stop`.
pub(crate) fn lookup(labels: &BTreeMap<Stop, Tau>, stop: Stop) -> (at: Tau)
    ensures
        at == label(labels@, stop),
{
    match labels.get(&stop) {
        Some(at) => *at,
        None => UNREACHED,
    }
}

/// Tables in which only the source `ps` is reached, at `tau`, and marked.
pub(crate) fn depart(tau: Tau, ps: Stop) -> (search: Search)
    ensures
        search@ == rounds::departure(tau, ps),
{
    let mut search = Search {
        labels: BTreeMap::new(),
        best: BTreeMap::new(),
        tree: BTreeMap::new(),
        marked: BTreeSet::new(),
    };
    search.labels.insert(ps, tau);
    search.best.insert(ps, tau);
    search.marked.insert(ps);
    search
}

/// Records that a trip boarded at `board` on `route` reaches `stop` at
/// `arrival`, where that improves on what is known.
pub(crate) fn improve(
    search: &mut Search,
    k: K,
    pt: Stop,
    route: Route,
    board: Stop,
    stop: Stop,
    arrival: Tau,
)
    ensures
        final(search)@ == rounds::improve(old(search)@, k, pt, route, board, stop, arrival),
{
    if arrival < lookup(&search.best, stop) && arrival < lookup(&search.best, pt) {
        search.tree.insert((k, stop), (board, route));
        search.labels.insert(stop, arrival);
        search.best.insert(stop, arrival);
        search.marked.insert(stop);
    }
}

/// Records that a walk reaches `to` at `candidate`, where that improves on
/// its label.
pub(crate) fn stroll(search: &mut Search, to: Stop, candidate: Tau)
    ensures
        final(search)@ == rounds::stroll(old(search)@, to, candidate),
{
    if candidate < lookup(&search.labels, to) {
        let known = lookup(&search.best, to);
        search.labels.insert(to, candidate);
        search.best.insert(to, if known <= candidate { known } else { candidate });
        search.marked.insert(to);
    }
}

} // verus!

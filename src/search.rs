//! Nearest-neighbour search: a linear scan of the table in entry order.
use vstd::prelude::*;
use crate::table::Table;
use crate::vector::{
    cosine, cosine_similarity, distance, euclidean_distance, squared_distance,
    squared_euclidean_distance, valid,
};

verus! {

/// How candidates are compared with the target.
#[derive(Debug, Clone, Copy, PartialEq, Eq, Structural)]
pub enum Metric {
    /// Highest cosine similarity wins.
    Cosine,
    /// Smallest Euclidean distance wins.
    Euclidean,
}

/// The best entry found by a search.
#[derive(Debug)]
pub struct Neighbor {
    /// Position of the entry in the table.
    pub index: usize,
    /// The entry's word.
    pub word: String,
    /// Similarity (cosine) or distance (Euclidean), in fixed point.
    pub score: i64,
}

/// The quantity a search maximises: the similarity, or the negated squared
/// distance.
pub open spec fn rank(metric: Metric, t: Seq<i64>, v: Seq<i64>) -> int {
    match metric {
        Metric::Cosine => cosine(t, v),
        Metric::Euclidean => -squared_distance(t, v),
    }
}

/// The score reported for a candidate.
pub open spec fn score(metric: Metric, t: Seq<i64>, v: Seq<i64>) -> int {
    match metric {
        Metric::Cosine => cosine(t, v),
        Metric::Euclidean => distance(t, v),
    }
}

/// Whether `w` is among the excluded words.
pub open spec fn excluded(exclude: Seq<String>, w: Seq<char>) -> bool {
    exists|k: int| 0 <= k < exclude.len() && (#[trigger] exclude[k])@ == w
}

/// Whether `word` is among the excluded words.
fn is_excluded(exclude: &Vec<String>, word: &String) -> (r: bool)
    ensures
        r == excluded(exclude@, word@),
{
    let mut k: usize = 0;
    while k < exclude.len()
        invariant
            k <= exclude@.len(),
            forall|j: int| 0 <= j < k ==> (#[trigger] exclude@[j])@ != word@,
        decreases exclude@.len() - k,
    {
        if exclude[k] == *word {
            assert(exclude@[k as int]@ == word@);
            return true;
        }
        k += 1;
    }
    false
}

/// The entry not excluded whose vector ranks best against `target`; the first
/// such entry in table order wins a tie. `None` when every entry is excluded.
pub fn nearest_neighbor(target: &Vec<i64>, table: &Table, exclude: &Vec<String>, metric: Metric) -> (r:
    Option<Neighbor>)
    requires
        table.wf(),
        valid(target@),
        target@.len() == table.dimension(),
    ensures
        r is None <==> forall|k: int|
            0 <= k < table.entries().len() ==> excluded(exclude@, #[trigger] table.entries()[k].0),
        r is Some ==> {
            let n = r->0;
            let e = table.entries();
            &&& n.index < e.len()
            &&& !excluded(exclude@, e[n.index as int].0)
            &&& n.word@ == e[n.index as int].0
            &&& n.score == score(metric, target@, e[n.index as int].1)
            &&& forall|k: int|
                0 <= k < e.len() && !excluded(exclude@, #[trigger] e[k].0) ==> rank(metric, target@, e[k].1)
                    <= rank(metric, target@, e[n.index as int].1)
            &&& forall|k: int|
                0 <= k < n.index && !excluded(exclude@, #[trigger] e[k].0) ==> rank(metric, target@, e[k].1)
                    < rank(metric, target@, e[n.index as int].1)
        },
{
    let mut best: Option<usize> = None;
    let mut best_rank: i128 = 0;
    let mut k: usize = 0;
    while k < table.len()
        invariant
            table.wf(),
            valid(target@),
            target@.len() == table.dimension(),
            k <= table.entries().len(),
            best is None <==> forall|j: int|
                0 <= j < k ==> excluded(exclude@, #[trigger] table.entries()[j].0),
            best is Some ==> {
                let b = best->0 as int;
                let e = table.entries();
                &&& b < k
                &&& !excluded(exclude@, e[b].0)
                &&& best_rank == rank(metric, target@, e[b].1)
                &&& forall|j: int|
                    0 <= j < k && !excluded(exclude@, #[trigger] e[j].0) ==> rank(metric, target@, e[j].1)
                        <= best_rank
                &&& forall|j: int|
                    0 <= j < b && !excluded(exclude@, #[trigger] e[j].0) ==> rank(metric, target@, e[j].1)
                        < best_rank
            },
        decreases table.entries().len() - k,
    {
        if !is_excluded(exclude, table.word(k)) {
            let v = table.vector(k);
            let rk: i128 = match metric {
                Metric::Cosine => cosine_similarity(target, v) as i128,
                Metric::Euclidean => -squared_euclidean_distance(target, v),
            };
            let better = match best {
                None => true,
                Some(_) => rk > best_rank,
            };
            if better {
                best = Some(k);
                best_rank = rk;
            }
        }
        k += 1;
    }
    match best {
        None => None,
        Some(b) => {
            let v = table.vector(b);
            let s = match metric {
                Metric::Cosine => cosine_similarity(target, v),
                Metric::Euclidean => euclidean_distance(target, v),
            };
            Some(Neighbor { index: b, word: table.word(b).clone(), score: s })
        },
    }
}

} // verus!

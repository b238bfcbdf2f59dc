//! The embedding table: distinct words, each with a vector of one shared
//! dimension, kept in insertion order.
use vstd::prelude::*;
use crate::vector::{valid, MAX_DIM};

verus! {

/// One entry of a table as seen by specifications: a word and its vector.
pub type EntryView = (Seq<char>, Seq<i64>);

/// Index of the first entry of `entries[..n]` whose word is `w`, or -1.
pub open spec fn find_in(entries: Seq<EntryView>, w: Seq<char>, n: int) -> int
    decreases n,
{
    if n <= 0 {
        -1
    } else if find_in(entries, w, n - 1) >= 0 {
        find_in(entries, w, n - 1)
    } else if entries[n - 1].0 == w {
        n - 1
    } else {
        -1
    }
}

/// Index of the entry whose word is `w`, or -1.
pub open spec fn find(entries: Seq<EntryView>, w: Seq<char>) -> int {
    find_in(entries, w, entries.len() as int)
}

/// The entries after storing `v` under `w`: a known word gets the new vector
/// in place, a new word goes last.
pub open spec fn upsert(entries: Seq<EntryView>, w: Seq<char>, v: Seq<i64>) -> Seq<EntryView> {
    let k = find(entries, w);
    if k >= 0 {
        entries.update(k, (w, v))
    } else {
        entries.push((w, v))
    }
}

/// `find_in` is the index of the first match, and -1 exactly when nothing matches.
pub proof fn lemma_find_in(entries: Seq<EntryView>, w: Seq<char>, n: int)
    requires
        0 <= n <= entries.len(),
    ensures
        -1 <= find_in(entries, w, n) < n,
        find_in(entries, w, n) >= 0 ==> entries[find_in(entries, w, n)].0 == w,
        forall|k: int| 0 <= k < n && k < find_in(entries, w, n) ==> (#[trigger] entries[k]).0 != w,
        find_in(entries, w, n) == -1 ==> forall|k: int| 0 <= k < n ==> (#[trigger] entries[k]).0 != w,
    decreases n,
{
    if n > 0 {
        lemma_find_in(entries, w, n - 1);
    }
}

/// Word embeddings of one dimension.
pub struct Table {
    dim: usize,
    words: Vec<String>,
    vectors: Vec<Vec<i64>>,
}

impl Table {
    /// The dimension shared by every vector.
    pub closed spec fn dimension(&self) -> nat {
        self.dim as nat
    }

    /// The entries in order.
    pub closed spec fn entries(&self) -> Seq<EntryView> {
        Seq::new(self.words@.len(), |k: int| (self.words@[k]@, self.vectors@[k]@))
    }

    /// The fields agree with each other.
    pub closed spec fn consistent(&self) -> bool {
        self.words@.len() == self.vectors@.len()
    }

    /// Well formed: bounded dimension, every vector valid and of the table's
    /// dimension, no word twice.
    pub open spec fn wf(&self) -> bool {
        &&& self.consistent()
        &&& self.dimension() <= MAX_DIM
        &&& forall|k: int|
            0 <= k < self.entries().len() ==> valid(#[trigger] self.entries()[k].1)
                && self.entries()[k].1.len() == self.dimension()
        &&& forall|j: int, k: int|
            0 <= j < self.entries().len() && 0 <= k < self.entries().len() && j != k
                ==> #[trigger] self.entries()[j].0 != #[trigger] self.entries()[k].0
    }

    /// An empty table of dimension `dim`.
    pub fn new(dim: usize) -> (r: Table)
        requires
            dim <= MAX_DIM,
        ensures
            r.wf(),
            r.dimension() == dim,
            r.entries() == Seq::<EntryView>::empty(),
    {
        let r = Table { dim, words: Vec::new(), vectors: Vec::new() };
        assert(r.entries() =~= Seq::<EntryView>::empty());
        r
    }

    /// The dimension shared by every vector.
    pub fn dim(&self) -> (r: usize)
        ensures
            r == self.dimension(),
    {
        self.dim
    }

    /// The number of entries.
    pub fn len(&self) -> (r: usize)
        requires
            self.wf(),
        ensures
            r == self.entries().len(),
    {
        self.words.len()
    }

    /// The word of entry `k`.
    pub fn word(&self, k: usize) -> (r: &String)
        requires
            self.wf(),
            k < self.entries().len(),
        ensures
            r@ == self.entries()[k as int].0,
    {
        &self.words[k]
    }

    /// The vector of entry `k`.
    pub fn vector(&self, k: usize) -> (r: &Vec<i64>)
        requires
            self.wf(),
            k < self.entries().len(),
        ensures
            r@ == self.entries()[k as int].1,
            valid(r@),
            r@.len() == self.dimension(),
    {
        assert(valid(self.entries()[k as int].1));
        &self.vectors[k]
    }

    /// The index of the entry for `word`, if there is one.
    pub fn lookup(&self, word: &String) -> (r: Option<usize>)
        requires
            self.wf(),
        ensures
            r is None <==> find(self.entries(), word@) == -1,
            r is Some ==> r->0 == find(self.entries(), word@),
    {
        proof {
            lemma_find_in(self.entries(), word@, self.entries().len() as int);
        }
        let mut k: usize = 0;
        while k < self.words.len()
            invariant
                self.wf(),
                k <= self.entries().len(),
                forall|j: int| 0 <= j < k ==> self.entries()[j].0 != word@,
            decreases self.entries().len() - k,
        {
            if self.words[k] == *word {
                proof {
                    lemma_find_in(self.entries(), word@, self.entries().len() as int);
                    let f = find(self.entries(), word@);
                    assert(self.entries()[k as int].0 == word@);
                    if f < k as int && f >= 0 {
                        assert(self.entries()[f].0 != word@);
                    }
                    if f > k as int {
                        assert(self.entries()[k as int].0 != word@);
                    }
                    if f == -1 {
                        assert(self.entries()[k as int].0 != word@);
                    }
                }
                return Some(k);
            }
            k += 1;
        }
        None
    }

    /// Stores `vector` under `word`, replacing the vector of a known word.
    pub fn insert(&mut self, word: String, vector: Vec<i64>)
        requires
            old(self).wf(),
            valid(vector@),
            vector@.len() == old(self).dimension(),
        ensures
            final(self).wf(),
            final(self).dimension() == old(self).dimension(),
            final(self).entries() == upsert(old(self).entries(), word@, vector@),
    {
        let ghost before = self.entries();
        match self.lookup(&word) {
            Some(k) => {
                proof {
                    lemma_find_in(before, word@, before.len() as int);
                }
                self.vectors.set(k, vector);
                assert(self.entries() =~= before.update(k as int, (word@, vector@)));
            },
            None => {
                proof {
                    lemma_find_in(before, word@, before.len() as int);
                }
                self.words.push(word);
                self.vectors.push(vector);
                assert(self.entries() =~= before.push((word@, vector@)));
            },
        }
    }
}

} // verus!

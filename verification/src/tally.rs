//! The outcome of many games: for each count of guesses, the secrets that took it.

use vstd::prelude::*;
use vstd::multiset::Multiset;
use vstd::std_specs::hash::*;
use std::collections::HashMap;
use vstd::seq_lib::to_multiset_build;
use crate::filters::lemma_nothing_listed;
use crate::word::word_views;

verus! {

/// The mathematical content of a `Tally`.
pub struct Counts {
    /// For each count of guesses that some game took, the secrets of those games.
    pub solved: Map<nat, Multiset<Seq<char>>>,
    /// The secrets of the games in which the solver got stuck.
    pub stuck: Multiset<Seq<char>>,
}

impl Counts {
    /// No game has been recorded.
    pub open spec fn empty() -> Counts {
        Counts { solved: Map::empty(), stuck: Multiset::empty() }
    }

    /// The secrets of the games that took `tries` guesses.
    pub open spec fn took(self, tries: nat) -> Multiset<Seq<char>> {
        if self.solved.dom().contains(tries) {
            self.solved[tries]
        } else {
            Multiset::empty()
        }
    }

    /// The counts after one more game, for `secret`, that ended with `outcome`.
    pub open spec fn record(self, outcome: Option<nat>, secret: Seq<char>) -> Counts {
        match outcome {
            Some(tries) => Counts {
                solved: self.solved.insert(tries, self.took(tries).insert(secret)),
                stuck: self.stuck,
            },
            None => Counts { solved: self.solved, stuck: self.stuck.insert(secret) },
        }
    }

    /// The counts of two sets of games taken together.
    pub open spec fn merge(self, other: Counts) -> Counts {
        Counts {
            solved: Map::new(
                |tries: nat| self.solved.dom().contains(tries) || other.solved.dom().contains(tries),
                |tries: nat| self.took(tries).add(other.took(tries)),
            ),
            stuck: self.stuck.add(other.stuck),
        }
    }

    /// The counts after a series of games, one for each secret, in order.
    pub open spec fn record_all(self, outcomes: Seq<Option<nat>>, secrets: Seq<Seq<char>>) -> Counts
        decreases outcomes.len(),
    {
        if outcomes.len() == 0 {
            self
        } else {
            self.record_all(outcomes.drop_last(), secrets.drop_last()).record(
                outcomes.last(),
                secrets.last(),
            )
        }
    }
}

/// Where every game ends with a count, no secret is recorded as stuck.
pub proof fn lemma_nothing_stuck(outcomes: Seq<Option<nat>>, secrets: Seq<Seq<char>>)
    requires
        forall|i: int| 0 <= i < outcomes.len() ==> (#[trigger] outcomes[i]) is Some,
    ensures
        Counts::empty().record_all(outcomes, secrets).stuck == Multiset::<Seq<char>>::empty(),
    decreases outcomes.len(),
{
    if outcomes.len() > 0 {
        lemma_nothing_stuck(outcomes.drop_last(), secrets.drop_last());
    }
}

/// The order in which two games are recorded does not matter.
pub proof fn lemma_record_commutes(
    counts: Counts,
    first: Option<nat>,
    a: Seq<char>,
    second: Option<nat>,
    b: Seq<char>,
)
    ensures
        counts.record(first, a).record(second, b) == counts.record(second, b).record(first, a),
{
    let one = counts.record(first, a).record(second, b);
    let other = counts.record(second, b).record(first, a);
    assert(one.stuck =~= other.stuck);
    assert(one.solved =~= other.solved) by {
        assert forall|k: nat| one.solved.dom().contains(k) implies #[trigger] one.solved[k]
            =~= other.solved[k] by {}
    }
}

/// Merging does not depend on the order of the two sides.
pub proof fn lemma_merge_commutes(a: Counts, b: Counts)
    ensures
        a.merge(b) == b.merge(a),
{
    assert(a.merge(b).stuck =~= b.merge(a).stuck);
    assert(a.merge(b).solved =~= b.merge(a).solved) by {
        assert forall|k: nat| a.merge(b).solved.dom().contains(k) implies #[trigger] a.merge(
            b,
        ).solved[k] =~= b.merge(a).solved[k] by {}
    }
}

/// Merging three sets of games does not depend on which two are merged first.
pub proof fn lemma_merge_associates(a: Counts, b: Counts, c: Counts)
    ensures
        a.merge(b).merge(c) == a.merge(b.merge(c)),
{
    let left = a.merge(b).merge(c);
    let right = a.merge(b.merge(c));
    assert(left.stuck =~= right.stuck);
    assert(left.solved =~= right.solved) by {
        assert forall|k: nat| left.solved.dom().contains(k) implies #[trigger] left.solved[k]
            =~= right.solved[k] by {}
    }
}

/// Merging with the counts of no games changes nothing.
pub proof fn lemma_merge_nothing(counts: Counts)
    ensures
        counts.merge(Counts::empty()) == counts,
{
    let merged = counts.merge(Counts::empty());
    assert(merged.stuck =~= counts.stuck);
    assert(merged.solved =~= counts.solved) by {
        assert forall|k: nat| merged.solved.dom().contains(k) implies #[trigger] merged.solved[k]
            =~= counts.solved[k] by {}
    }
}

/// Recording a game is merging with the counts of that game alone.
pub proof fn lemma_record_is_merge(counts: Counts, outcome: Option<nat>, secret: Seq<char>)
    ensures
        counts.record(outcome, secret) == counts.merge(Counts::empty().record(outcome, secret)),
{
    let one = counts.record(outcome, secret);
    let other = counts.merge(Counts::empty().record(outcome, secret));
    assert(one.stuck =~= other.stuck);
    assert(one.solved =~= other.solved) by {
        assert forall|k: nat| one.solved.dom().contains(k) implies #[trigger] one.solved[k]
            =~= other.solved[k] by {}
    }
}

/// The outcome of many games.
pub struct Tally<'a> {
    solved: HashMap<usize, Vec<&'a str>>,
    counts: Vec<usize>,
    stuck: Vec<&'a str>,
}

impl<'a> View for Tally<'a> {
    type V = Counts;

    closed spec fn view(&self) -> Counts {
        Counts {
            solved: Map::new(
                |tries: nat| tries <= usize::MAX && self.solved@.contains_key(tries as usize),
                |tries: nat| word_views(self.solved@[tries as usize]@).to_multiset(),
            ),
            stuck: word_views(self.stuck@).to_multiset(),
        }
    }
}

impl<'a> Tally<'a> {
    /// The tally is in order: the counts that have games are listed once
    /// each, and every count that is listed has a game.
    pub closed spec fn wf(&self) -> bool {
        &&& self.counts@.no_duplicates()
        &&& forall|n: usize| self.solved@.contains_key(n) <==> self.counts@.contains(n)
        &&& forall|n: usize| self.solved@.contains_key(n) ==> (#[trigger] self.solved@[n])@.len() > 0
    }

    /// A tally of no games.
    pub fn new() -> (tally: Self)
        ensures
            tally.wf(),
            tally@ == Counts::empty(),
    {
        let tally = Tally { solved: HashMap::new(), counts: Vec::new(), stuck: Vec::new() };
        proof {
            assert(tally@.solved =~= Counts::empty().solved);
            lemma_nothing_listed(word_views(tally.stuck@));
        }
        tally
    }

    /// Records one game for `secret` that ended with `tries`.
    pub fn record(&mut self, tries: Option<usize>, secret: &'a str)
        requires
            old(self).wf(),
        ensures
            final(self).wf(),
            final(self)@ == old(self)@.record(
                match tries {
                    Some(n) => Some(n as nat),
                    None => None,
                },
                secret@,
            ),
    {
        broadcast use group_hash_axioms;

        match tries {
            None => {
                let ghost before = word_views(self.stuck@);
                self.stuck.push(secret);
                proof {
                    assert(word_views(self.stuck@) =~= before.push(secret@));
                    to_multiset_build(before, secret@);
                    assert(self@.solved =~= old(self)@.solved);
                }
            },
            Some(n) => {
                let mut row: Vec<&'a str> = match self.solved.remove(&n) {
                    Some(row) => row,
                    None => {
                        self.counts.push(n);
                        Vec::new()
                    },
                };
                let ghost before = word_views(row@);
                row.push(secret);
                proof {
                    assert(word_views(row@) =~= before.push(secret@));
                    to_multiset_build(before, secret@);
                    if !old(self).solved@.contains_key(n) {
                        lemma_nothing_listed(before);
                    }
                }
                self.solved.insert(n, row);
                proof {
                    let target = old(self)@.record(Some(n as nat), secret@);
                    assert(self@.solved =~= target.solved);
                    assert(self.solved@ == old(self).solved@.remove(n).insert(n, row));
                    assert forall|m: usize| self.solved@.contains_key(m) implies (
                    #[trigger] self.solved@[m])@.len() > 0 by {
                        if m != n {
                            assert(old(self).solved@.contains_key(m));
                        }
                    }
                    assert(self.counts@.no_duplicates()) by {
                        if !old(self).solved@.contains_key(n) {
                            let listed = old(self).counts@;
                            assert(self.counts@ == listed.push(n));
                            assert forall|i: int, j: int|
                                0 <= i < j < self.counts@.len() implies self.counts@[i]
                                != self.counts@[j] by {
                                if j == listed.len() {
                                    assert(listed.contains(listed[i]));
                                }
                            }
                        }
                    }
                    assert forall|m: usize| self.solved@.contains_key(m) <==> self.counts@.contains(
                        m,
                    ) by {
                        if old(self).solved@.contains_key(n) {
                            assert(self.counts@ == old(self).counts@);
                        } else {
                            let listed = old(self).counts@;
                            assert(self.counts@ == listed.push(n));
                            if listed.contains(m) {
                                let at = choose|at: int| 0 <= at < listed.len() && listed[at] == m;
                                assert(self.counts@[at] == m);
                            }
                            if m == n {
                                assert(self.counts@[listed.len() as int] == n);
                            }
                        }
                    }
                }
            },
        }
    }

    /// Takes in the games of another tally.
    pub fn merge(&mut self, other: &Tally<'a>)
        requires
            old(self).wf(),
            other.wf(),
        ensures
            final(self).wf(),
            final(self)@ == old(self)@.merge(other@),
    {
        broadcast use group_hash_axioms;

        let ghost start = self@;
        let ghost mut taken = Counts::empty();
        proof {
            lemma_merge_nothing(start);
        }
        let mut k: usize = 0;
        while k < other.counts.len()
            invariant
                self.wf(),
                other.wf(),
                0 <= k <= other.counts@.len(),
                self@ == start.merge(taken),
                taken.stuck == Multiset::<Seq<char>>::empty(),
                forall|n: nat|
                    taken.solved.dom().contains(n) <==> n <= usize::MAX && other.counts@.take(
                        k as int,
                    ).contains(n as usize),
                forall|n: nat|
                    taken.solved.dom().contains(n) ==> #[trigger] taken.solved[n] == word_views(
                        other.solved@[n as usize]@,
                    ).to_multiset(),
            decreases other.counts@.len() - k,
        {
            let n: usize = other.counts[k];
            assert(other.counts@.contains(n));
            let row: &Vec<&'a str> = match other.solved.get(&n) {
                Some(row) => row,
                None => unreached(),
            };
            assert(!other.counts@.take(k as int).contains(n)) by {
                if other.counts@.take(k as int).contains(n) {
                    let at = choose|at: int|
                        0 <= at < k && other.counts@.take(k as int)[at] == n;
                    assert(other.counts@[at] == other.counts@[k as int]);
                }
            }
            let mut i: usize = 0;
            while i < row.len()
                invariant
                    self.wf(),
                    other.wf(),
                    0 <= k < other.counts@.len(),
                    n == other.counts@[k as int],
                    other.solved@.contains_key(n),
                    *row == other.solved@[n],
                    row@.len() > 0,
                    !other.counts@.take(k as int).contains(n),
                    0 <= i <= row@.len(),
                    self@ == start.merge(taken),
                    taken.stuck == Multiset::<Seq<char>>::empty(),
                    forall|m: nat|
                        taken.solved.dom().contains(m) <==> (m <= usize::MAX && other.counts@.take(
                            k as int,
                        ).contains(m as usize)) || (m == n && i > 0),
                    forall|m: nat|
                        taken.solved.dom().contains(m) && m != n ==> #[trigger] taken.solved[m]
                            == word_views(other.solved@[m as usize]@).to_multiset(),
                    i > 0 ==> taken.solved[n as nat] == word_views(row@).take(i as int).to_multiset(),
                decreases row@.len() - i,
            {
                let secret: &'a str = row[i];
                let ghost before = self@;
                let ghost earlier = taken;
                self.record(Some(n), secret);
                proof {
                    taken = earlier.record(Some(n as nat), secret@);
                    lemma_record_is_merge(before, Some(n as nat), secret@);
                    lemma_merge_associates(
                        start,
                        earlier,
                        Counts::empty().record(Some(n as nat), secret@),
                    );
                    lemma_record_is_merge(earlier, Some(n as nat), secret@);
                    let seen = word_views(row@).take(i as int);
                    assert(word_views(row@).take(i + 1) =~= seen.push(secret@));
                    to_multiset_build(seen, secret@);
                    if i == 0 {
                        lemma_nothing_listed(seen);
                    }
                }
                i += 1;
            }
            proof {
                assert(word_views(row@).take(row@.len() as int) =~= word_views(row@));
                let seen = other.counts@.take(k as int);
                let next = other.counts@.take(k + 1);
                assert(next =~= seen.push(n));
                assert forall|m: nat|
                    taken.solved.dom().contains(m) <==> m <= usize::MAX && next.contains(
                        m as usize,
                    ) by {
                    if m <= usize::MAX && seen.contains(m as usize) {
                        let at = choose|at: int| 0 <= at < seen.len() && seen[at] == m as usize;
                        assert(next[at] == m as usize);
                    }
                    if m == n {
                        assert(next[k as int] == n);
                    }
                }
            }
            k += 1;
        }
        let mut i: usize = 0;
        proof {
            lemma_nothing_listed(word_views(other.stuck@).take(0));
            assert(other.counts@.take(other.counts@.len() as int) =~= other.counts@);
        }
        while i < other.stuck.len()
            invariant
                self.wf(),
                other.wf(),
                0 <= i <= other.stuck@.len(),
                self@ == start.merge(taken),
                taken.stuck == word_views(other.stuck@).take(i as int).to_multiset(),
                forall|n: nat|
                    taken.solved.dom().contains(n) <==> n <= usize::MAX && other.counts@.contains(
                        n as usize,
                    ),
                forall|n: nat|
                    taken.solved.dom().contains(n) ==> #[trigger] taken.solved[n] == word_views(
                        other.solved@[n as usize]@,
                    ).to_multiset(),
            decreases other.stuck@.len() - i,
        {
            let secret: &'a str = other.stuck[i];
            let ghost before = self@;
            let ghost earlier = taken;
            self.record(None, secret);
            proof {
                taken = earlier.record(None, secret@);
                lemma_record_is_merge(before, None, secret@);
                lemma_merge_associates(start, earlier, Counts::empty().record(None, secret@));
                lemma_record_is_merge(earlier, None, secret@);
                let seen = word_views(other.stuck@).take(i as int);
                assert(word_views(other.stuck@).take(i + 1) =~= seen.push(secret@));
                to_multiset_build(seen, secret@);
            }
            i += 1;
        }
        proof {
            assert(word_views(other.stuck@).take(other.stuck@.len() as int) =~= word_views(
                other.stuck@,
            ));
            assert(taken.solved =~= other@.solved);
        }
    }

    /// The counts of guesses that some game took, each once, in the order in
    /// which they first came up.
    pub fn counts(&self) -> (taken: Vec<usize>)
        requires
            self.wf(),
        ensures
            taken@.no_duplicates(),
            forall|tries: usize| taken@.contains(tries) <==> self@.took(tries as nat).len() > 0,
    {
        let mut taken: Vec<usize> = Vec::new();
        let mut k: usize = 0;
        while k < self.counts.len()
            invariant
                0 <= k <= self.counts@.len(),
                taken@ == self.counts@.take(k as int),
            decreases self.counts@.len() - k,
        {
            taken.push(self.counts[k]);
            assert(self.counts@.take(k + 1) =~= self.counts@.take(k as int).push(
                self.counts@[k as int],
            ));
            k += 1;
        }
        proof {
            assert(self.counts@.take(self.counts@.len() as int) =~= self.counts@);
            assert forall|tries: usize| taken@.contains(tries) <==> self@.took(tries as nat).len()
                > 0 by {
                if self.solved@.contains_key(tries) {
                    word_views(self.solved@[tries]@).to_multiset_ensures();
                }
            }
        }
        taken
    }

    /// The number of games that took `tries` guesses.
    pub fn count(&self, tries: usize) -> (games: usize)
        ensures
            games == self@.took(tries as nat).len(),
    {
        broadcast use group_hash_axioms;

        match self.solved.get(&tries) {
            Some(row) => {
                proof {
                    word_views(row@).to_multiset_ensures();
                }
                row.len()
            },
            None => 0,
        }
    }

    /// The secrets of the games that took `tries` guesses, in the order recorded.
    pub fn words(&self, tries: usize) -> (secrets: Vec<&'a str>)
        ensures
            word_views(secrets@).to_multiset() == self@.took(tries as nat),
    {
        broadcast use group_hash_axioms;

        let mut secrets: Vec<&'a str> = Vec::new();
        match self.solved.get(&tries) {
            Some(row) => {
                let mut i: usize = 0;
                while i < row.len()
                    invariant
                        0 <= i <= row@.len(),
                        word_views(secrets@) == word_views(row@).take(i as int),
                    decreases row@.len() - i,
                {
                    let ghost before = word_views(secrets@);
                    secrets.push(row[i]);
                    proof {
                        assert(word_views(secrets@) =~= before.push(row@[i as int]@));
                        assert(word_views(row@).take(i + 1) =~= word_views(row@).take(i as int).push(
                            row@[i as int]@,
                        ));
                    }
                    i += 1;
                }
                proof {
                    assert(word_views(row@).take(row@.len() as int) =~= word_views(row@));
                }
            },
            None => {
                proof {
                    lemma_nothing_listed(word_views(secrets@));
                }
            },
        }
        secrets
    }

    /// The secrets of the games in which the solver got stuck, in the order recorded.
    pub fn stuck_words(&self) -> (secrets: &Vec<&'a str>)
        ensures
            word_views(secrets@).to_multiset() == self@.stuck,
    {
        &self.stuck
    }
}

} // verus!

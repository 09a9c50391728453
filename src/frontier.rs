use vstd::prelude::*;

use crate::id::Id;
use crate::score::Score;

verus! {

/// `k` is the position of the entry that `take_best` removes from `s`: its score
/// is the highest, and no later entry has the same score (the latest of equally
/// good entries wins).
pub open spec fn is_best_index(s: Seq<(Score, Id)>, k: int) -> bool {
    &&& 0 <= k < s.len()
    &&& forall|j: int| 0 <= j < s.len() ==> #[trigger] s[j].0 <= s[k].0
    &&& forall|j: int| k < j < s.len() ==> #[trigger] s[j].0 < s[k].0
}

/// The position of the entry that `take_best` removes from a non-empty `s`.
pub open spec fn best_index(s: Seq<(Score, Id)>) -> int {
    choose|k: int| is_best_index(s, k)
}

/// The best position among the first `n` entries.
spec fn prefix_best(s: Seq<(Score, Id)>, n: nat) -> int
    decreases n,
{
    if n <= 1 {
        0
    } else {
        let m = prefix_best(s, (n - 1) as nat);
        if s[n - 1].0 >= s[m].0 {
            n - 1
        } else {
            m
        }
    }
}

proof fn lemma_prefix_best(s: Seq<(Score, Id)>, n: nat)
    requires
        1 <= n <= s.len(),
    ensures
        0 <= prefix_best(s, n) < n,
        forall|j: int| 0 <= j < n ==> #[trigger] s[j].0 <= s[prefix_best(s, n)].0,
        forall|j: int| prefix_best(s, n) < j < n ==> #[trigger] s[j].0 < s[prefix_best(s, n)].0,
    decreases n,
{
    if n > 1 {
        lemma_prefix_best(s, (n - 1) as nat);
    }
}

/// A non-empty sequence of entries has exactly one best position.
pub proof fn lemma_best_index(s: Seq<(Score, Id)>)
    requires
        s.len() > 0,
    ensures
        is_best_index(s, best_index(s)),
        forall|k: int| is_best_index(s, k) ==> k == best_index(s),
{
    lemma_prefix_best(s, s.len());
    let m = prefix_best(s, s.len());
    assert(is_best_index(s, m));
    assert forall|k: int| is_best_index(s, k) implies k == best_index(s) by {
        let b = best_index(s);
        if k < b {
            assert(s[b].0 < s[k].0);
        } else if b < k {
            assert(s[k].0 < s[b].0);
        }
    }
}

/// The open list of a search: the (score, id) entries of the nodes that have not
/// been expanded yet. Equal scores are all kept.
pub struct NotOpened {
    entries: Vec<(Score, Id)>,
}

impl View for NotOpened {
    type V = Seq<(Score, Id)>;

    /// The entries, in the order in which they were inserted.
    closed spec fn view(&self) -> Seq<(Score, Id)> {
        self.entries@
    }
}

impl NotOpened {
    /// An open list that holds only the root, with its initial value.
    pub fn new(root_value: Score) -> (r: Self)
        ensures
            r@ == seq![(root_value, Id::Root)],
    {
        let mut res = NotOpened { entries: Vec::new() };
        res.insert(Id::Root, root_value);
        proof {
            assert(res@ =~= seq![(root_value, Id::Root)]);
        }
        res
    }

    pub fn insert(&mut self, item: Id, value: Score)
        ensures
            final(self)@ == old(self)@.push((value, item)),
    {
        self.entries.push((value, item));
    }

    pub fn len(&self) -> (r: usize)
        ensures
            r == self@.len(),
    {
        self.entries.len()
    }

    pub fn is_empty(&self) -> (r: bool)
        ensures
            r == (self@.len() == 0),
    {
        self.entries.len() == 0
    }

    /// Removes and returns the best entry, as `(id, score)`.
    pub fn take_best(&mut self) -> (r: (Id, Score))
        requires
            old(self)@.len() > 0,
        ensures
            is_best_index(old(self)@, best_index(old(self)@)),
            r == (old(self)@[best_index(old(self)@)].1, old(self)@[best_index(old(self)@)].0),
            final(self)@ == old(self)@.remove(best_index(old(self)@)),
    {
        let ghost s = self@;
        let n = self.entries.len();
        let mut m: usize = 0;
        let mut i: usize = 1;
        while i < n
            invariant
                n == s.len(),
                s == self.entries@,
                m < i <= n,
                forall|j: int| 0 <= j < i ==> #[trigger] s[j].0 <= s[m as int].0,
                forall|j: int| m < j < i ==> #[trigger] s[j].0 < s[m as int].0,
            decreases n - i,
        {
            if self.entries[i].0 >= self.entries[m].0 {
                m = i;
            }
            i = i + 1;
        }
        proof {
            lemma_best_index(s);
            assert(is_best_index(s, m as int));
        }
        let (value, id) = self.entries.remove(m);
        (id, value)
    }
}

/// Putting back an entry whose score no other entry exceeds makes it the next
/// best, and taking it again restores the open list.
pub proof fn lemma_insert_then_take_best(s: Seq<(Score, Id)>, e: (Score, Id))
    requires
        forall|j: int| 0 <= j < s.len() ==> #[trigger] s[j].0 <= e.0,
    ensures
        best_index(s.push(e)) == s.len(),
        s.push(e)[best_index(s.push(e))] == e,
        s.push(e).remove(best_index(s.push(e))) == s,
{
    let t = s.push(e);
    assert(is_best_index(t, s.len() as int)) by {
        assert forall|j: int| 0 <= j < t.len() implies #[trigger] t[j].0 <= t[s.len() as int].0 by {
            if j < s.len() {
                assert(t[j] == s[j]);
            }
        }
    }
    lemma_best_index(t);
    assert(t.remove(s.len() as int) =~= s);
}

/// Taking the best entry and putting it straight back with the same score gives
/// the same entry on the next take, and the open list of the first take.
pub proof fn lemma_take_best_round_trip(s: Seq<(Score, Id)>)
    requires
        s.len() > 0,
    ensures
        ({
            let k = best_index(s);
            let rest = s.remove(k);
            let again = rest.push(s[k]);
            &&& best_index(again) == rest.len()
            &&& again[best_index(again)] == s[k]
            &&& again.remove(best_index(again)) == rest
        }),
{
    lemma_best_index(s);
    let k = best_index(s);
    let rest = s.remove(k);
    assert forall|j: int| 0 <= j < rest.len() implies #[trigger] rest[j].0 <= s[k].0 by {
        if j < k {
            assert(rest[j] == s[j]);
        } else {
            assert(rest[j] == s[j + 1]);
        }
    }
    lemma_insert_then_take_best(rest, s[k]);
}

} // verus!

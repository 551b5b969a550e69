//! The pool of pieces that are still unused: a singly linked list laid
//! out in an array of indices.
//!
//! Entry `0` is the head and stands for no piece. The link of an entry
//! is the index of the entry that follows it; the link of the last entry
//! is `0`. A piece leaves the list by relinking the entry before it, and
//! keeps its own link, so that it can be put back where it was.

use vstd::prelude::*;

verus! {

/// The links, one for the head and one for each piece.
pub struct Pool {
    pub next: Vec<usize>,
}

/// The links thread the indices of `list`, in order, from the head.
pub open spec fn linked(next: Seq<usize>, list: Seq<usize>) -> bool {
    &&& next.len() > 0
    &&& list.no_duplicates()
    &&& forall|i: int| 0 <= i < list.len() ==> 0 < #[trigger] list[i] < next.len()
    &&& next[0] == follower(list, 0)
    &&& forall|i: int|
        0 <= i < list.len() ==> next[#[trigger] list[i] as int] == follower(list, i + 1)
}

/// The links of a pool that holds the pieces `1` to `n` in that order:
/// the head and `n` entries, each naming the next, the last naming the
/// head.
pub open spec fn chain(n: nat) -> Seq<usize> {
    Seq::new(n + 1, |i: int| if i < n { (i + 1) as usize } else { 0 })
}

/// The index at position `i` of the list, or `0` past its end.
pub open spec fn follower(list: Seq<usize>, i: int) -> usize {
    if 0 <= i < list.len() {
        list[i]
    } else {
        0
    }
}

/// The entry before position `i` of the list: the head for the first.
pub open spec fn leader(list: Seq<usize>, i: int) -> usize {
    if 0 < i <= list.len() {
        list[i - 1]
    } else {
        0
    }
}

proof fn lemma_linked_agree(next: Seq<usize>, a: Seq<usize>, b: Seq<usize>, i: int)
    requires
        linked(next, a),
        linked(next, b),
        0 <= i < a.len(),
    ensures
        i < b.len(),
        a[i] == b[i],
    decreases i,
{
    if i > 0 {
        lemma_linked_agree(next, a, b, i - 1);
        assert(next[a[i - 1] as int] == follower(a, i));
        assert(next[b[i - 1] as int] == follower(b, i));
    }
}

/// The links thread at most one list.
pub proof fn lemma_linked_unique(next: Seq<usize>, a: Seq<usize>, b: Seq<usize>)
    requires
        linked(next, a),
        linked(next, b),
    ensures
        a == b,
{
    if a.len() > 0 {
        lemma_linked_agree(next, a, b, a.len() - 1);
    }
    if b.len() > 0 {
        lemma_linked_agree(next, b, a, b.len() - 1);
    }
    assert forall|i: int| 0 <= i < a.len() implies a[i] == b[i] by {
        lemma_linked_agree(next, a, b, i);
    }
    assert(a =~= b);
}

/// Taking the entry at position `k` out of a threaded list, by
/// relinking the entry before it, threads the rest.
pub proof fn lemma_unlink(next: Seq<usize>, list: Seq<usize>, k: int)
    requires
        linked(next, list),
        0 <= k < list.len(),
    ensures
        linked(next.update(leader(list, k) as int, next[list[k] as int]), list.remove(k)),
{
    let pred = leader(list, k);
    let after = next.update(pred as int, next[list[k] as int]);
    let rest = list.remove(k);
    assert(next[list[k] as int] == follower(list, k + 1));
    assert forall|i: int| 0 <= i < rest.len() implies after[#[trigger] rest[i] as int] == follower(
        rest,
        i + 1,
    ) by {
        if i < k {
            assert(rest[i] == list[i]);
            assert(next[list[i] as int] == follower(list, i + 1));
        } else {
            assert(rest[i] == list[i + 1]);
            assert(next[list[i + 1] as int] == follower(list, i + 2));
            if k > 0 {
                assert(list[i + 1] != list[k - 1]);
            }
        }
    }
    if k > 0 {
        assert(rest[0] == list[0]);
    }
}

/// Putting an entry back behind position `k` of a threaded list, where
/// its own link still names what follows there, threads the longer list.
pub proof fn lemma_relink(next: Seq<usize>, list: Seq<usize>, k: int, index: usize)
    requires
        linked(next, list),
        0 <= k <= list.len(),
        0 < index < next.len(),
        !list.contains(index),
        next[index as int] == follower(list, k),
    ensures
        linked(next.update(leader(list, k) as int, index), list.insert(k, index)),
{
    let pred = leader(list, k);
    let after = next.update(pred as int, index);
    let more = list.insert(k, index);
    assert forall|i: int, j: int| 0 <= i < more.len() && 0 <= j < more.len() && i
        != j implies more[i] != more[j] by {
        let a = if i < k { i } else { i - 1 };
        let b = if j < k { j } else { j - 1 };
        if i != k && j != k {
            assert(more[i] == list[a] && more[j] == list[b]);
        } else if i == k {
            assert(more[j] == list[b]);
            assert(list.contains(list[b]));
        } else {
            assert(more[i] == list[a]);
            assert(list.contains(list[a]));
        }
    }
    assert forall|i: int| 0 <= i < more.len() implies 0 < #[trigger] more[i] < next.len() by {
        if i < k {
            assert(more[i] == list[i]);
        } else if i > k {
            assert(more[i] == list[i - 1]);
        }
    }
    assert forall|i: int| 0 <= i < more.len() implies after[#[trigger] more[i] as int] == follower(
        more,
        i + 1,
    ) by {
        if i < k {
            assert(more[i] == list[i]);
            assert(next[list[i] as int] == follower(list, i + 1));
        } else if i == k {
            if k > 0 {
                assert(list.contains(list[k - 1]));
            }
        } else {
            assert(more[i] == list[i - 1]);
            assert(next[list[i - 1] as int] == follower(list, i));
            if k > 0 {
                assert(list[i - 1] != list[k - 1]);
            }
        }
    }
    if k > 0 {
        assert(more[0] == list[0]);
    }
}

impl View for Pool {
    type V = Seq<usize>;

    /// The indices in the pool, in list order.
    open spec fn view(&self) -> Seq<usize> {
        choose|list: Seq<usize>| linked(self.next@, list)
    }
}

impl Pool {
    /// The links thread a list.
    pub open spec fn wf(&self) -> bool {
        linked(self.next@, self@)
    }

    /// The links as a sequence.
    pub open spec fn links(&self) -> Seq<usize> {
        self.next@
    }

    /// The position of an index of the pool in list order.
    pub open spec fn position(&self, index: usize) -> int {
        self@.index_of(index)
    }

    /// Links that thread `list` belong to the pool whose view is `list`.
    pub proof fn lemma_view(&self, list: Seq<usize>)
        requires
            linked(self.next@, list),
        ensures
            self@ == list,
            self.wf(),
    {
        lemma_linked_unique(self.next@, self@, list);
    }

    /// The pool of the pieces `1` to `n`, in that order: the head and
    /// `n` entries, each linked to the next and the last to the head.
    pub fn new(n: usize) -> (p: Pool)
        requires
            n < usize::MAX,
        ensures
            p.wf(),
            p@ == Seq::new(n as nat, |i: int| (i + 1) as usize),
            p.links() == chain(n as nat),
    {
        let mut next: Vec<usize> = Vec::new();
        let mut i: usize = 0;
        while i < n
            invariant
                i <= n,
                n < usize::MAX,
                next@.len() == i,
                forall|j: int| 0 <= j < i ==> next@[j] == j + 1,
            decreases n - i,
        {
            next.push(i + 1);
            i += 1;
        }
        next.push(0);
        let p = Pool { next };
        assert(p.next@ =~= chain(n as nat));
        proof {
            let list = Seq::new(n as nat, |i: int| (i + 1) as usize);
            assert(linked(p.next@, list));
            p.lemma_view(list);
        }
        p
    }

    /// Whether no piece is left.
    pub fn is_empty(&self) -> (r: bool)
        requires
            self.wf(),
        ensures
            r == (self@.len() == 0),
    {
        self.next[0] == 0
    }

    /// The index that follows `index` in the pool, where `index` is the
    /// head (`0`) or an index of the pool; `0` at the end of the list.
    pub fn after(&self, index: usize) -> (r: usize)
        requires
            self.wf(),
            index == 0 || self@.contains(index),
        ensures
            r == self.links()[index as int],
            index == 0 ==> r == follower(self@, 0),
            index != 0 ==> r == follower(self@, self.position(index) + 1),
    {
        if index != 0 {
            assert(self@[self.position(index)] == index);
        }
        self.next[index]
    }

    /// The indices of the pool, in list order.
    pub fn to_vec(&self) -> (v: Vec<usize>)
        requires
            self.wf(),
        ensures
            v@ == self@,
    {
        let mut v: Vec<usize> = Vec::new();
        let mut cur = self.next[0];
        while cur != 0
            invariant
                self.wf(),
                v@.len() <= self@.len(),
                v@ == self@.take(v@.len() as int),
                cur == follower(self@, v@.len() as int),
            decreases self@.len() - v@.len(),
        {
            let ghost k = v@.len() as int;
            v.push(cur);
            assert(v@ =~= self@.take(k + 1));
            cur = self.next[cur];
        }
        assert(v@ =~= self@);
        v
    }

    /// Takes `index` out of the pool by relinking `predecessor`, the
    /// entry before it (the head for the first). The link of `index`
    /// itself stays as it was.
    pub fn remove(&mut self, index: usize, predecessor: usize)
        requires
            old(self).wf(),
            old(self)@.contains(index),
            predecessor == leader(old(self)@, old(self).position(index)),
        ensures
            final(self).wf(),
            final(self)@ == old(self)@.remove(old(self).position(index)),
            final(self).links() == old(self).links().update(
                predecessor as int,
                old(self).links()[index as int],
            ),
    {
        let ghost list = self@;
        let ghost k = self.position(index);
        assert(list[k] == index);
        if predecessor != 0 {
            assert(list[k - 1] == predecessor);
        }
        let follow = self.next[index];
        self.next[predecessor] = follow;
        proof {
            lemma_unlink(old(self).next@, list, k);
            self.lemma_view(list.remove(k));
        }
    }

    /// Puts `index` back behind `predecessor`, which is the head or an
    /// index of the pool, where the link of `index` still names the entry
    /// that follows `predecessor`.
    pub fn restore(&mut self, index: usize, predecessor: usize)
        requires
            old(self).wf(),
            0 < index < old(self).links().len(),
            !old(self)@.contains(index),
            predecessor == 0 || old(self)@.contains(predecessor),
            old(self).links()[index as int] == old(self).links()[predecessor as int],
        ensures
            final(self).wf(),
            final(self)@ == old(self)@.insert(
                if predecessor == 0 {
                    0
                } else {
                    old(self).position(predecessor) + 1
                },
                index,
            ),
            final(self).links() == old(self).links().update(predecessor as int, index),
    {
        let ghost list = self@;
        let ghost k = if predecessor == 0 {
            0
        } else {
            self.position(predecessor) + 1
        };
        if predecessor != 0 {
            assert(list[k - 1] == predecessor);
        }
        self.next[predecessor] = index;
        proof {
            lemma_relink(old(self).next@, list, k, index);
            self.lemma_view(list.insert(k, index));
        }
    }
}

/// Putting back the piece that was just taken out restores the pool
/// exactly: the same links, and so the same order.
pub proof fn lemma_remove_then_restore(next: Seq<usize>, list: Seq<usize>, k: int)
    requires
        linked(next, list),
        0 <= k < list.len(),
    ensures
        next.update(leader(list, k) as int, next[list[k] as int]).update(
            leader(list, k) as int,
            list[k],
        ) == next,
        list.remove(k).insert(k, list[k]) == list,
        !list.remove(k).contains(list[k]),
        leader(list.remove(k), k) == leader(list, k),
        follower(list.remove(k), k) == next[list[k] as int],
{
    let pred = leader(list, k);
    assert(next[pred as int] == list[k]) by {
        if k > 0 {
            assert(next[list[k - 1] as int] == follower(list, k));
        }
    }
    assert(next.update(pred as int, next[list[k] as int]).update(pred as int, list[k]) =~= next);
    assert(list.remove(k).insert(k, list[k]) =~= list);
    let rest = list.remove(k);
    if rest.contains(list[k]) {
        let j = choose|j: int| 0 <= j < rest.len() && rest[j] == list[k];
        if j < k {
            assert(rest[j] == list[j]);
        } else {
            assert(rest[j] == list[j + 1]);
        }
    }
    assert(next[list[k] as int] == follower(list, k + 1));
}

} // verus!

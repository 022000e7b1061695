//! Suppression of immediate repeats in a live sequence of items.
//!
//! The combinator remembers one item. An offered item passes when it differs
//! from the remembered one (or nothing is remembered yet), and is then
//! remembered; an item equal to the remembered one is held back.
use vstd::prelude::*;
use vstd::laws_eq::obeys_view_eq;

verus! {

/// Whether `x` passes when `last` is remembered.
pub open spec fn passes<V>(last: Option<V>, x: V) -> bool {
    last != Some(x)
}

/// What a combinator that remembers `last` lets through of `s`, in order.
pub open spec fn emitted<V>(last: Option<V>, s: Seq<V>) -> Seq<V>
    decreases s.len(),
{
    if s.len() == 0 {
        Seq::empty()
    } else {
        let rest = emitted(Some(s[0]), s.drop_first());
        if passes(last, s[0]) {
            seq![s[0]] + rest
        } else {
            rest
        }
    }
}

/// The first item of each maximal run of equal consecutive items of `s`.
pub open spec fn run_heads<V>(s: Seq<V>) -> Seq<V>
    decreases s.len(),
{
    if s.len() == 0 {
        Seq::empty()
    } else {
        let h = run_heads(s.drop_last());
        if s.len() == 1 || s.last() != s[s.len() - 2] {
            h.push(s.last())
        } else {
            h
        }
    }
}

/// The positions in `s` of the first item of each maximal run of equal
/// consecutive items, in increasing order.
pub open spec fn head_indices<V>(s: Seq<V>) -> Seq<int>
    decreases s.len(),
{
    if s.len() == 0 {
        Seq::empty()
    } else {
        let h = head_indices(s.drop_last());
        if s.len() == 1 || s.last() != s[s.len() - 2] {
            h.push(s.len() - 1)
        } else {
            h
        }
    }
}

/// No two adjacent items of `s` are equal.
pub open spec fn no_adjacent_repeats<V>(s: Seq<V>) -> bool {
    forall|i: int| 0 <= i < s.len() - 1 ==> #[trigger] s[i] != s[i + 1]
}

pub struct Dedup<T> {
    last: Option<T>,
}

impl<T: View> Dedup<T> {
    /// The remembered item, as a view.
    pub closed spec fn last_view(&self) -> Option<T::V> {
        match self.last {
            Some(x) => Some(x@),
            None => None,
        }
    }
}

impl<T: PartialEq + View> Dedup<T> {
    /// A combinator that remembers nothing yet.
    pub fn new() -> (d: Self)
        ensures
            d.last_view() is None,
    {
        Dedup { last: None }
    }

    /// Offers the next item of the underlying sequence. Returns whether it
    /// passes; a passing item becomes the remembered one, which `last` then
    /// hands out.
    pub fn offer(&mut self, item: T) -> (passed: bool)
        requires
            obeys_view_eq::<T>(),
        ensures
            passed == passes(old(self).last_view(), item@),
            final(self).last_view() == Some(item@),
    {
        proof {
            reveal(obeys_view_eq);
        }
        let passed = match &self.last {
            None => true,
            Some(last) => !(item == *last),
        };
        if passed {
            self.last = Some(item);
        }
        passed
    }

    /// The remembered item: after a passing `offer`, the item that passed.
    pub fn last(&self) -> (r: &Option<T>)
        ensures
            match *r {
                Some(x) => self.last_view() == Some(x@),
                None => self.last_view() is None,
            },
    {
        &self.last
    }
}

proof fn lemma_emitted_push<V>(last: Option<V>, s: Seq<V>, x: V)
    ensures
        emitted(last, s.push(x)) == emitted(last, s) + if passes(
            if s.len() == 0 { last } else { Some(s.last()) },
            x,
        ) {
            seq![x]
        } else {
            Seq::empty()
        },
    decreases s.len(),
{
    let t = s.push(x);
    if s.len() == 0 {
        assert(t.drop_first() =~= Seq::<V>::empty());
        assert(seq![x] + Seq::<V>::empty() =~= seq![x]);
        assert(Seq::<V>::empty() + Seq::<V>::empty() =~= Seq::<V>::empty());
        assert(Seq::<V>::empty() + seq![x] =~= seq![x]);
        assert(emitted(Some(x), t.drop_first()) == Seq::<V>::empty());
        assert(emitted(last, s) == Seq::<V>::empty());
    } else {
        assert(t[0] == s[0]);
        assert(t.drop_first() =~= s.drop_first().push(x));
        lemma_emitted_push(Some(s[0]), s.drop_first(), x);
        if s.len() > 1 {
            assert(s.drop_first().last() == s.last());
        } else {
            assert(s.last() == s[0]);
        }
        let tail = if passes(if s.len() == 0 { last } else { Some(s.last()) }, x) {
            seq![x]
        } else {
            Seq::<V>::empty()
        };
        let r = emitted(Some(s[0]), s.drop_first());
        assert(seq![s[0]] + (r + tail) =~= (seq![s[0]] + r) + tail);
        assert(emitted(Some(s[0]), t.drop_first()) == r + tail);
        if passes(last, s[0]) {
            assert(emitted(last, t) == seq![s[0]] + (r + tail));
        } else {
            assert(emitted(last, t) == r + tail);
        }
        assert(emitted(last, t) == emitted(last, s) + tail);
    }
}

proof fn lemma_emitted_is_run_heads<V>(s: Seq<V>)
    ensures
        emitted(None, s) == run_heads(s),
    decreases s.len(),
{
    if s.len() > 0 {
        let p = s.drop_last();
        assert(p.push(s.last()) =~= s);
        lemma_emitted_is_run_heads(p);
        lemma_emitted_push(None::<V>, p, s.last());
        if p.len() > 0 {
            assert(p.last() == s[s.len() - 2]);
        }
        assert(emitted(None, p) + seq![s.last()] =~= run_heads(p).push(s.last()));
        assert(emitted(None, p) + Seq::<V>::empty() =~= run_heads(p));
    }
}

proof fn lemma_run_heads_shape<V>(s: Seq<V>)
    ensures
        no_adjacent_repeats(run_heads(s)),
        s.len() > 0 ==> run_heads(s).len() > 0 && run_heads(s).last() == s.last(),
        no_adjacent_repeats(s) ==> run_heads(s) == s,
    decreases s.len(),
{
    if s.len() > 0 {
        let p = s.drop_last();
        lemma_run_heads_shape(p);
        let h = run_heads(p);
        if no_adjacent_repeats(s) {
            assert forall|i: int| 0 <= i < p.len() - 1 implies #[trigger] p[i] != p[i + 1] by {
                assert(s[i] != s[i + 1]);
            }
            assert(p.push(s.last()) =~= s);
            if s.len() > 1 {
                assert(s[s.len() - 2] != s[s.len() - 1]);
            }
        }
        if s.len() == 1 || s.last() != s[s.len() - 2] {
            let r = h.push(s.last());
            assert forall|i: int| 0 <= i < r.len() - 1 implies #[trigger] r[i] != r[i + 1] by {
                if i < h.len() - 1 {
                    assert(h[i] != h[i + 1]);
                } else {
                    assert(p.last() == s[s.len() - 2]);
                }
            }
        }
    }
}

proof fn lemma_head_indices<V>(s: Seq<V>)
    ensures
        head_indices(s).len() == run_heads(s).len(),
        forall|j: int|
            0 <= j < head_indices(s).len() ==> 0 <= #[trigger] head_indices(s)[j] < s.len()
                && run_heads(s)[j] == s[head_indices(s)[j]],
        forall|a: int, b: int|
            0 <= a < b < head_indices(s).len() ==> #[trigger] head_indices(s)[a]
                < #[trigger] head_indices(s)[b],
        s.len() > 0 ==> head_indices(s).len() > 0 && head_indices(s)[0] == 0,
    decreases s.len(),
{
    if s.len() > 0 {
        let p = s.drop_last();
        lemma_head_indices(p);
        let h = head_indices(p);
        let r = run_heads(p);
        assert forall|j: int| 0 <= j < h.len() implies s[h[j]] == p[h[j]] by {}
        if s.len() == 1 || s.last() != s[s.len() - 2] {
            let h2 = h.push(s.len() - 1);
            let r2 = r.push(s.last());
            assert forall|j: int| 0 <= j < h2.len() implies 0 <= #[trigger] h2[j] < s.len()
                && r2[j] == s[h2[j]] by {
                if j < h.len() {
                    assert(h2[j] == h[j] && r2[j] == r[j]);
                    assert(s[h[j]] == p[h[j]]);
                }
            }
            assert forall|a: int, b: int| 0 <= a < b < h2.len() implies #[trigger] h2[a]
                < #[trigger] h2[b] by {
                if b < h.len() {
                    assert(h2[a] == h[a] && h2[b] == h[b]);
                } else {
                    assert(h2[a] == h[a]);
                }
            }
        } else {
            assert forall|j: int| 0 <= j < h.len() implies 0 <= #[trigger] h[j] < s.len()
                && r[j] == s[h[j]] by {
                assert(s[h[j]] == p[h[j]]);
            }
        }
    }
}

/// What the combinator lets through of a sequence, starting from nothing
/// remembered: no two adjacent items are equal; it is exactly the first item
/// of each maximal run of equal consecutive input items, in input order; and
/// an input without adjacent repeats comes through whole. What comes
/// through is an order-preserving subsequence of the input: its `j`-th item
/// is the input item at `head_indices(s)[j]`, those positions strictly
/// increase, and the first is the input's first item.
pub proof fn lemma_dedup_correct<V>(s: Seq<V>)
    ensures
        no_adjacent_repeats(emitted(None, s)),
        emitted(None, s) == run_heads(s),
        no_adjacent_repeats(s) ==> emitted(None, s) == s,
        emitted(None, s).len() == head_indices(s).len(),
        forall|j: int|
            0 <= j < emitted(None, s).len() ==> 0 <= #[trigger] head_indices(s)[j] < s.len()
                && emitted(None, s)[j] == s[head_indices(s)[j]],
        forall|a: int, b: int|
            0 <= a < b < head_indices(s).len() ==> #[trigger] head_indices(s)[a]
                < #[trigger] head_indices(s)[b],
        s.len() > 0 ==> head_indices(s).len() > 0 && head_indices(s)[0] == 0,
{
    lemma_emitted_is_run_heads(s);
    lemma_run_heads_shape(s);
    lemma_head_indices(s);
}

} // verus!

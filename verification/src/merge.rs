//! The two ways in which repeated fields are merged: the first occurrence
//! wins, or all occurrences are kept in order.

use vstd::prelude::*;

verus! {

/// The first value that `pick` finds among the items of `s`, in order.
pub open spec fn first_of<A, B>(s: Seq<A>, pick: spec_fn(A) -> Option<B>) -> Option<B>
    decreases s.len(),
{
    if s.len() == 0 {
        None
    } else {
        match pick(s[0]) {
            Some(b) => Some(b),
            None => first_of(s.drop_first(), pick),
        }
    }
}

/// Every value that `pick` finds among the items of `s`, in order.
pub open spec fn all_of<A, B>(s: Seq<A>, pick: spec_fn(A) -> Option<B>) -> Seq<B>
    decreases s.len(),
{
    if s.len() == 0 {
        Seq::empty()
    } else {
        match pick(s[0]) {
            Some(b) => seq![b] + all_of(s.drop_first(), pick),
            None => all_of(s.drop_first(), pick),
        }
    }
}

/// One more item at the end changes the first value found only if none was
/// found before.
pub proof fn lemma_first_of_push<A, B>(s: Seq<A>, pick: spec_fn(A) -> Option<B>, a: A)
    ensures
        first_of(s.push(a), pick) == match first_of(s, pick) {
            Some(b) => Some(b),
            None => pick(a),
        },
    decreases s.len(),
{
    if s.len() == 0 {
        assert(s.push(a).drop_first() =~= s);
    } else {
        assert(s.push(a).drop_first() =~= s.drop_first().push(a));
        lemma_first_of_push(s.drop_first(), pick, a);
    }
}

/// One more item at the end adds its value, if it has one, at the end.
pub proof fn lemma_all_of_push<A, B>(s: Seq<A>, pick: spec_fn(A) -> Option<B>, a: A)
    ensures
        all_of(s.push(a), pick) == match pick(a) {
            Some(b) => all_of(s, pick).push(b),
            None => all_of(s, pick),
        },
    decreases s.len(),
{
    if s.len() == 0 {
        assert(s.push(a).drop_first() =~= s);
        assert(all_of(s.push(a), pick) =~= match pick(a) {
            Some(b) => all_of(s, pick).push(b),
            None => all_of(s, pick),
        });
    } else {
        assert(s.push(a).drop_first() =~= s.drop_first().push(a));
        lemma_all_of_push(s.drop_first(), pick, a);
        assert(all_of(s.push(a), pick) =~= match pick(a) {
            Some(b) => all_of(s, pick).push(b),
            None => all_of(s, pick),
        });
    }
}

/// [`lemma_first_of_push`] for the step from the first `i` items of `s` to the
/// first `i + 1`.
pub proof fn lemma_first_of_step<A, B>(s: Seq<A>, pick: spec_fn(A) -> Option<B>, i: int)
    requires
        0 <= i < s.len(),
    ensures
        first_of(s.take(i + 1), pick) == match first_of(s.take(i), pick) {
            Some(b) => Some(b),
            None => pick(s[i]),
        },
{
    assert(s.take(i + 1) =~= s.take(i).push(s[i]));
    lemma_first_of_push(s.take(i), pick, s[i]);
}

/// [`lemma_all_of_push`] for the step from the first `i` items of `s` to the
/// first `i + 1`.
pub proof fn lemma_all_of_step<A, B>(s: Seq<A>, pick: spec_fn(A) -> Option<B>, i: int)
    requires
        0 <= i < s.len(),
    ensures
        all_of(s.take(i + 1), pick) == match pick(s[i]) {
            Some(b) => all_of(s.take(i), pick).push(b),
            None => all_of(s.take(i), pick),
        },
{
    assert(s.take(i + 1) =~= s.take(i).push(s[i]));
    lemma_all_of_push(s.take(i), pick, s[i]);
}

/// The first value found is the value of one of the items, and nothing is
/// found only where no item has a value.
pub proof fn lemma_first_of_found<A, B>(s: Seq<A>, pick: spec_fn(A) -> Option<B>)
    ensures
        match first_of(s, pick) {
            Some(b) => exists|i: int|
                0 <= i < s.len() && #[trigger] pick(s[i]) == Some(b) && forall|j: int|
                    0 <= j < i ==> #[trigger] pick(s[j]) is None,
            None => forall|i: int| 0 <= i < s.len() ==> #[trigger] pick(s[i]) is None,
        },
    decreases s.len(),
{
    if s.len() > 0 {
        let t = s.drop_first();
        lemma_first_of_found(t, pick);
        match pick(s[0]) {
            Some(b) => {
                assert(pick(s[0]) == Some(b));
            },
            None => {
                match first_of(t, pick) {
                    Some(b) => {
                        let i = choose|i: int|
                            0 <= i < t.len() && #[trigger] pick(t[i]) == Some(b) && forall|j: int|
                                0 <= j < i ==> #[trigger] pick(t[j]) is None;
                        assert(pick(s[i + 1]) == Some(b));
                        assert forall|j: int| 0 <= j < i + 1 implies #[trigger] pick(
                            s[j],
                        ) is None by {
                            if j > 0 {
                                assert(pick(t[j - 1]) is None);
                            }
                        }
                    },
                    None => {
                        assert forall|i: int| 0 <= i < s.len() implies #[trigger] pick(
                            s[i],
                        ) is None by {
                            if i > 0 {
                                assert(pick(t[i - 1]) is None);
                            }
                        }
                    },
                }
            },
        }
    }
}

/// Every value kept is the value of one of the items.
pub proof fn lemma_all_of_found<A, B>(s: Seq<A>, pick: spec_fn(A) -> Option<B>)
    ensures
        forall|k: int|
            0 <= k < all_of(s, pick).len() ==> exists|i: int|
                0 <= i < s.len() && #[trigger] pick(s[i]) == Some(#[trigger] all_of(s, pick)[k]),
    decreases s.len(),
{
    if s.len() > 0 {
        let t = s.drop_first();
        lemma_all_of_found(t, pick);
        let kept = all_of(s, pick);
        let rest = all_of(t, pick);
        assert forall|k: int| 0 <= k < kept.len() implies exists|i: int|
            0 <= i < s.len() && #[trigger] pick(s[i]) == Some(#[trigger] kept[k]) by {
            let shift: int = if pick(s[0]) is Some {
                1
            } else {
                0
            };
            if pick(s[0]) is Some && k == 0 {
                assert(pick(s[0]) == Some(kept[0]));
            } else {
                assert(kept[k] == rest[k - shift]);
                let i = choose|i: int|
                    0 <= i < t.len() && #[trigger] pick(t[i]) == Some(rest[k - shift]);
                assert(pick(s[i + 1]) == Some(kept[k]));
            }
        }
    }
}

} // verus!

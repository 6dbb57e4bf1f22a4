//! Cues, and sequences of cues in the order of time.

use vstd::prelude::*;

verus! {

/// A line of lyrics and the moment, in milliseconds, at which it starts.
pub struct Cue {
    pub start_ms: u64,
    pub text: Seq<char>,
}

/// Whether no cue starts before one that stands in front of it.
pub open spec fn in_time_order(s: Seq<Cue>) -> bool {
    forall|i: int, j: int| 0 <= i <= j < s.len() ==> s[i].start_ms <= s[j].start_ms
}

/// The cues that start at `t`.
pub open spec fn at_time(s: Seq<Cue>, t: u64) -> Seq<Cue> {
    s.filter(|c: Cue| c.start_ms == t)
}

/// Whether exactly the first `n` cues start at `t` or earlier.
pub open spec fn splits_at(s: Seq<Cue>, t: u64, n: int) -> bool {
    &&& 0 <= n <= s.len()
    &&& forall|i: int| 0 <= i < n ==> (#[trigger] s[i]).start_ms <= t
    &&& forall|i: int| n <= i < s.len() ==> (#[trigger] s[i]).start_ms > t
}

/// The number of cues at the front that start at `t` or earlier.
pub open spec fn cues_until(s: Seq<Cue>, t: u64) -> int
    decreases s.len(),
{
    if s.len() == 0 || s[0].start_ms > t {
        0
    } else {
        1 + cues_until(s.drop_first(), t)
    }
}

/// The cue that is current at `t`: the last of those at the front that start
/// at `t` or earlier.
pub open spec fn index_at(s: Seq<Cue>, t: u64) -> Option<usize> {
    if cues_until(s, t) == 0 {
        None
    } else {
        Some((cues_until(s, t) - 1) as usize)
    }
}

/// `s` with `c` put behind the cues at the front that start no later.
pub open spec fn insert_by_time(s: Seq<Cue>, c: Cue) -> Seq<Cue> {
    s.insert(cues_until(s, c.start_ms), c)
}

/// The cues of `s` in the order of time; those that start together keep the
/// order that they have in `s`.
pub open spec fn time_ordered(s: Seq<Cue>) -> Seq<Cue>
    decreases s.len(),
{
    if s.len() == 0 {
        s
    } else {
        insert_by_time(time_ordered(s.drop_last()), s.last())
    }
}

pub proof fn lemma_cues_until(s: Seq<Cue>, t: u64)
    ensures
        0 <= cues_until(s, t) <= s.len(),
        forall|i: int| 0 <= i < cues_until(s, t) ==> (#[trigger] s[i]).start_ms <= t,
        cues_until(s, t) < s.len() ==> s[cues_until(s, t)].start_ms > t,
    decreases s.len(),
{
    if s.len() > 0 && s[0].start_ms <= t {
        let rest = s.drop_first();
        lemma_cues_until(rest, t);
        assert forall|i: int| 0 <= i < cues_until(s, t) implies (#[trigger] s[i]).start_ms <= t by {
            if i > 0 {
                assert(s[i] == rest[i - 1]);
            }
        }
    }
}

/// In cues in the order of time, those that start at `t` or earlier are those
/// at the front.
pub proof fn lemma_time_order_splits(s: Seq<Cue>, t: u64)
    requires
        in_time_order(s),
    ensures
        splits_at(s, t, cues_until(s, t)),
{
    lemma_cues_until(s, t);
}

/// There is at most one place at which cues split at `t`.
pub proof fn lemma_split_is_unique(s: Seq<Cue>, t: u64, n: int)
    requires
        splits_at(s, t, n),
    ensures
        n == cues_until(s, t),
{
    lemma_cues_until(s, t);
    let m = cues_until(s, t);
    if m < n {
        assert(s[m].start_ms <= t);
    } else if n < m {
        assert(s[n].start_ms <= t);
    }
}

/// Putting cues in the order of time orders them, and leaves out none and
/// adds none.
pub proof fn lemma_time_ordered(s: Seq<Cue>)
    ensures
        in_time_order(time_ordered(s)),
        time_ordered(s).len() == s.len(),
        time_ordered(s).to_multiset() == s.to_multiset(),
    decreases s.len(),
{
    if s.len() > 0 {
        let before = time_ordered(s.drop_last());
        let c = s.last();
        lemma_time_ordered(s.drop_last());
        lemma_time_order_splits(before, c.start_ms);
        let n = cues_until(before, c.start_ms);
        let after = before.insert(n, c);
        assert forall|i: int, j: int| 0 <= i <= j < after.len() implies after[i].start_ms
            <= after[j].start_ms by {
            let a = if i < n {
                i
            } else {
                i - 1
            };
            let b = if j < n {
                j
            } else {
                j - 1
            };
            if i != n {
                assert(after[i] == before[a]);
            }
            if j != n {
                assert(after[j] == before[b]);
            }
        }
        vstd::seq_lib::to_multiset_insert(before, n, c);
        s.drop_last().to_multiset_ensures();
        assert(s.drop_last().push(c) == s);
    }
}

/// Putting cues in the order of time keeps the order of those that start at
/// the same moment.
pub proof fn lemma_time_ordered_is_stable(s: Seq<Cue>, t: u64)
    ensures
        at_time(time_ordered(s), t) == at_time(s, t),
    decreases s.len(),
{
    let here = |c: Cue| c.start_ms == t;
    if s.len() > 0 {
        let before = time_ordered(s.drop_last());
        let c = s.last();
        lemma_time_ordered(s.drop_last());
        lemma_time_ordered_is_stable(s.drop_last(), t);
        lemma_time_order_splits(before, c.start_ms);
        let n = cues_until(before, c.start_ms);
        let front = before.take(n);
        let back = before.skip(n);
        assert(before == front + back);
        assert(before.insert(n, c) == front.push(c) + back);
        Seq::filter_distributes_over_add(front, back, here);
        Seq::filter_distributes_over_add(front.push(c), back, here);
        lemma_filter_push(front, c, here);
        lemma_filter_push(s.drop_last(), c, here);
        assert(s.drop_last().push(c) == s);
        if here(c) {
            assert forall|i: int| 0 <= i < back.len() implies !here(#[trigger] back[i]) by {
                assert(back[i] == before[n + i]);
            }
            lemma_filter_none(back, here);
            assert(front.filter(here).push(c) + back.filter(here) == (front.filter(here)
                + back.filter(here)).push(c));
        }
    }
}

proof fn lemma_filter_push(s: Seq<Cue>, c: Cue, p: spec_fn(Cue) -> bool)
    ensures
        s.push(c).filter(p) == if p(c) {
            s.filter(p).push(c)
        } else {
            s.filter(p)
        },
{
    reveal(Seq::filter);
    assert(s.push(c).drop_last() == s);
}

proof fn lemma_filter_none(s: Seq<Cue>, p: spec_fn(Cue) -> bool)
    requires
        forall|i: int| 0 <= i < s.len() ==> !p(#[trigger] s[i]),
    ensures
        s.filter(p) == Seq::<Cue>::empty(),
    decreases s.len(),
{
    reveal(Seq::filter);
    if s.len() > 0 {
        lemma_filter_none(s.drop_last(), p);
    }
}

/// The current cue is the one cue that has started while the next one has
/// not; there is none exactly while no cue has started.
pub proof fn law_current_cue(s: Seq<Cue>, t: u64)
    requires
        in_time_order(s),
        s.len() <= usize::MAX,
    ensures
        forall|i: usize|
            (index_at(s, t) == Some(i)) == (i < s.len() && (#[trigger] s[i as int]).start_ms <= t
                && (i + 1 < s.len() ==> s[i + 1].start_ms > t)),
        index_at(s, t) is None == forall|i: int| 0 <= i < s.len() ==> (#[trigger] s[i]).start_ms > t,
{
    lemma_time_order_splits(s, t);
    let n = cues_until(s, t);
    assert forall|i: usize|
        (index_at(s, t) == Some(i)) == (i < s.len() && (#[trigger] s[i as int]).start_ms <= t && (i
            + 1 < s.len() ==> s[i + 1].start_ms > t)) by {
        if i < s.len() && s[i as int].start_ms <= t && (i + 1 < s.len() ==> s[i + 1].start_ms > t) {
            assert(splits_at(s, t, i + 1)) by {
                assert forall|k: int| i + 1 <= k < s.len() implies (#[trigger] s[k]).start_ms
                    > t by {
                    assert(s[i + 1].start_ms <= s[k].start_ms);
                }
            }
            lemma_split_is_unique(s, t, i + 1);
        }
    }
    if n > 0 {
        assert(s[0].start_ms <= t);
    }
}

/// As time goes on the current cue never moves back.
pub proof fn law_current_cue_advances(s: Seq<Cue>, t: u64, later: u64)
    requires
        in_time_order(s),
        s.len() <= usize::MAX,
        t <= later,
    ensures
        index_at(s, t) matches Some(i) ==> (index_at(s, later) matches Some(j) && i <= j),
{
    lemma_time_order_splits(s, t);
    lemma_time_order_splits(s, later);
    let n = cues_until(s, t);
    let m = cues_until(s, later);
    if m < n {
        assert(s[m].start_ms <= t);
    }
}

/// Cues that are in the order of time, and have at every moment the cues of
/// `s` in their order, are the cues of `s` put in the order of time.
pub proof fn law_time_order_is_unique(s: Seq<Cue>, r: Seq<Cue>)
    requires
        in_time_order(r),
        forall|t: u64| at_time(r, t) == at_time(s, t),
    ensures
        r == time_ordered(s),
{
    lemma_time_ordered(s);
    assert forall|t: u64| at_time(r, t) == at_time(time_ordered(s), t) by {
        lemma_time_ordered_is_stable(s, t);
    }
    lemma_same_moments(r, time_ordered(s));
}

proof fn lemma_same_moments(a: Seq<Cue>, b: Seq<Cue>)
    requires
        in_time_order(a),
        in_time_order(b),
        forall|t: u64| at_time(a, t) == at_time(b, t),
    ensures
        a == b,
    decreases a.len(),
{
    if a.len() == 0 {
        if b.len() > 0 {
            lemma_last_at_time(b);
            lemma_filter_none(a, |c: Cue| c.start_ms == b.last().start_ms);
        }
    } else if b.len() == 0 {
        lemma_last_at_time(a);
        lemma_filter_none(b, |c: Cue| c.start_ms == a.last().start_ms);
    } else {
        lemma_last_at_time(a);
        lemma_last_at_time(b);
        let ta = a.last().start_ms;
        let tb = b.last().start_ms;
        if ta < tb {
            lemma_filter_none(a, |c: Cue| c.start_ms == tb);
        } else if tb < ta {
            lemma_filter_none(b, |c: Cue| c.start_ms == ta);
        }
        assert(a.last() == at_time(a, ta).last());
        assert(b.last() == at_time(b, ta).last());
        assert forall|t: u64| at_time(a.drop_last(), t) == at_time(b.drop_last(), t) by {
            let here = |c: Cue| c.start_ms == t;
            lemma_filter_push(a.drop_last(), a.last(), here);
            lemma_filter_push(b.drop_last(), b.last(), here);
            assert(a.drop_last().push(a.last()) == a);
            assert(b.drop_last().push(b.last()) == b);
            assert(at_time(a, t) == at_time(b, t));
            if t == ta {
                assert(at_time(a, t).drop_last() == at_time(a.drop_last(), t));
                assert(at_time(b, t).drop_last() == at_time(b.drop_last(), t));
            }
        }
        lemma_same_moments(a.drop_last(), b.drop_last());
        assert(a.drop_last().push(a.last()) == a);
        assert(b.drop_last().push(b.last()) == b);
    }
}

proof fn lemma_last_at_time(s: Seq<Cue>)
    requires
        s.len() > 0,
    ensures
        at_time(s, s.last().start_ms).len() > 0,
        at_time(s, s.last().start_ms).last() == s.last(),
{
    let here = |c: Cue| c.start_ms == s.last().start_ms;
    lemma_filter_push(s.drop_last(), s.last(), here);
    assert(s.drop_last().push(s.last()) == s);
}

/// The stable merge of two sequences of cues: always the cue that starts
/// first, and of two that start together the one of `a`.
pub open spec fn merged(a: Seq<Cue>, b: Seq<Cue>) -> Seq<Cue>
    decreases a.len() + b.len(),
{
    if a.len() == 0 {
        b
    } else if b.len() == 0 {
        a
    } else if a[0].start_ms <= b[0].start_ms {
        seq![a[0]] + merged(a.drop_first(), b)
    } else {
        seq![b[0]] + merged(a, b.drop_first())
    }
}

proof fn lemma_drop_first_is_ordered(s: Seq<Cue>)
    requires
        in_time_order(s),
        s.len() > 0,
    ensures
        in_time_order(s.drop_first()),
        forall|i: int|
            0 <= i < s.drop_first().len() ==> (#[trigger] s.drop_first()[i]).start_ms
                >= s[0].start_ms,
{
    assert forall|i: int, j: int| 0 <= i <= j < s.drop_first().len() implies s.drop_first()[i].start_ms
        <= s.drop_first()[j].start_ms by {
        assert(s[i + 1].start_ms <= s[j + 1].start_ms);
    }
    assert forall|i: int| 0 <= i < s.drop_first().len() implies (
    #[trigger] s.drop_first()[i]).start_ms >= s[0].start_ms by {
        assert(s[0].start_ms <= s[i + 1].start_ms);
    }
}

proof fn lemma_merged_is_ordered(a: Seq<Cue>, b: Seq<Cue>, from: u64)
    requires
        in_time_order(a),
        in_time_order(b),
        forall|i: int| 0 <= i < a.len() ==> (#[trigger] a[i]).start_ms >= from,
        forall|i: int| 0 <= i < b.len() ==> (#[trigger] b[i]).start_ms >= from,
    ensures
        in_time_order(merged(a, b)),
        forall|i: int| 0 <= i < merged(a, b).len() ==> (#[trigger] merged(a, b)[i]).start_ms >= from,
    decreases a.len() + b.len(),
{
    if a.len() > 0 && b.len() > 0 {
        let first = if a[0].start_ms <= b[0].start_ms {
            a[0]
        } else {
            b[0]
        };
        let rest = if a[0].start_ms <= b[0].start_ms {
            merged(a.drop_first(), b)
        } else {
            merged(a, b.drop_first())
        };
        assert forall|i: int| 0 <= i < a.len() implies (#[trigger] a[i]).start_ms
            >= a[0].start_ms by {}
        assert forall|i: int| 0 <= i < b.len() implies (#[trigger] b[i]).start_ms
            >= b[0].start_ms by {}
        if a[0].start_ms <= b[0].start_ms {
            lemma_drop_first_is_ordered(a);
            lemma_merged_is_ordered(a.drop_first(), b, first.start_ms);
        } else {
            lemma_drop_first_is_ordered(b);
            lemma_merged_is_ordered(a, b.drop_first(), first.start_ms);
        }
        let all = merged(a, b);
        assert(all == seq![first] + rest);
        assert forall|i: int, j: int| 0 <= i <= j < all.len() implies all[i].start_ms
            <= all[j].start_ms by {
            if i > 0 {
                assert(all[i] == rest[i - 1]);
            }
            if j > 0 {
                assert(all[j] == rest[j - 1]);
            }
        }
        assert forall|i: int| 0 <= i < all.len() implies (#[trigger] all[i]).start_ms >= from by {
            if i > 0 {
                assert(all[i] == rest[i - 1]);
            }
        }
    }
}

proof fn lemma_merged_at_time(a: Seq<Cue>, b: Seq<Cue>, t: u64)
    requires
        in_time_order(a),
        in_time_order(b),
    ensures
        at_time(merged(a, b), t) == at_time(a, t) + at_time(b, t),
    decreases a.len() + b.len(),
{
    let here = |c: Cue| c.start_ms == t;
    if a.len() == 0 {
        lemma_filter_none(a, here);
    } else if b.len() == 0 {
        lemma_filter_none(b, here);
    } else if a[0].start_ms <= b[0].start_ms {
        lemma_drop_first_is_ordered(a);
        lemma_merged_at_time(a.drop_first(), b, t);
        let one = seq![a[0]];
        assert(a == one + a.drop_first());
        Seq::filter_distributes_over_add(one, a.drop_first(), here);
        Seq::filter_distributes_over_add(one, merged(a.drop_first(), b), here);
        assert(at_time(merged(a, b), t) == at_time(a, t) + at_time(b, t));
    } else {
        lemma_drop_first_is_ordered(b);
        lemma_merged_at_time(a, b.drop_first(), t);
        let one = seq![b[0]];
        assert(b == one + b.drop_first());
        Seq::filter_distributes_over_add(one, b.drop_first(), here);
        Seq::filter_distributes_over_add(one, merged(a, b.drop_first()), here);
        if here(b[0]) {
            assert forall|i: int| 0 <= i < a.len() implies !here(#[trigger] a[i]) by {
                assert(a[0].start_ms <= a[i].start_ms);
            }
            lemma_filter_none(a, here);
        } else {
            lemma_filter_none(one, here);
        }
        assert(at_time(merged(a, b), t) == at_time(a, t) + at_time(b, t));
    }
}

/// Putting one sequence behind another and then in the order of time is
/// merging the two, each in the order of time.
pub proof fn law_merging_orders_both(a: Seq<Cue>, b: Seq<Cue>)
    ensures
        time_ordered(a + b) == merged(time_ordered(a), time_ordered(b)),
{
    lemma_time_ordered(a);
    lemma_time_ordered(b);
    let both = merged(time_ordered(a), time_ordered(b));
    lemma_merged_is_ordered(time_ordered(a), time_ordered(b), 0);
    assert forall|t: u64| at_time(both, t) == at_time(a + b, t) by {
        lemma_merged_at_time(time_ordered(a), time_ordered(b), t);
        lemma_time_ordered_is_stable(a, t);
        lemma_time_ordered_is_stable(b, t);
        Seq::filter_distributes_over_add(a, b, |c: Cue| c.start_ms == t);
    }
    law_time_order_is_unique(a + b, both);
}

/// A cue moved by an offset, but not before the start of the song.
pub open spec fn moved(c: Cue, offset: int) -> Cue {
    Cue {
        start_ms: if c.start_ms + offset < 0 {
            0
        } else {
            (c.start_ms + offset) as u64
        },
        text: c.text,
    }
}

/// Cues moved by an offset.
pub open spec fn all_moved(s: Seq<Cue>, offset: int) -> Seq<Cue> {
    s.map_values(|c: Cue| moved(c, offset))
}

/// Whether an offset keeps cues apart that stand in front of earlier ones:
/// no such two with different words meet at the start of the song.
pub open spec fn keeps_apart(s: Seq<Cue>, offset: int) -> bool {
    forall|i: int, j: int|
        0 <= i < j < s.len() && s[j].start_ms < s[i].start_ms ==> moved(s[j], offset).start_ms
            < moved(s[i], offset).start_ms || s[j].text == s[i].text
}

/// Moving cues and putting them in the order of time gives the same moments
/// in either order, and the same cues unless cues out of order meet at the
/// start of the song.
pub proof fn law_moving_keeps_the_order(s: Seq<Cue>, offset: int)
    requires
        forall|i: int| 0 <= i < s.len() ==> (#[trigger] s[i]).start_ms + offset <= u64::MAX,
    ensures
        time_ordered(all_moved(s, offset)).len() == time_ordered(s).len(),
        forall|i: int|
            0 <= i < time_ordered(s).len() ==> (#[trigger] time_ordered(
                all_moved(s, offset),
            )[i]).start_ms == moved(time_ordered(s)[i], offset).start_ms,
        keeps_apart(s, offset) ==> time_ordered(all_moved(s, offset)) == all_moved(
            time_ordered(s),
            offset,
        ),
    decreases s.len(),
{
    if s.len() == 0 {
        assert(all_moved(s, offset) == s);
        assert(all_moved(time_ordered(s), offset) == time_ordered(s));
    } else {
        let front = s.drop_last();
        let c = s.last();
        let still = time_ordered(front);
        let shifted = time_ordered(all_moved(front, offset));
        let mc = moved(c, offset);
        assert forall|i: int| 0 <= i < front.len() implies (#[trigger] front[i]).start_ms + offset
            <= u64::MAX by {
            assert(front[i] == s[i]);
        }
        law_moving_keeps_the_order(front, offset);
        assert(all_moved(s, offset).drop_last() == all_moved(front, offset));
        assert(all_moved(s, offset).last() == mc);
        lemma_time_ordered(front);
        lemma_time_ordered(all_moved(front, offset));
        lemma_time_order_splits(still, c.start_ms);
        lemma_time_order_splits(shifted, mc.start_ms);
        let n = cues_until(still, c.start_ms);
        let m = cues_until(shifted, mc.start_ms);
        assert(s[s.len() - 1].start_ms + offset <= u64::MAX);
        assert forall|k: int| 0 <= k < still.len() implies (#[trigger] still[k]).start_ms + offset
            <= u64::MAX && front.contains(still[k]) by {
            lemma_cue_comes_from(front, k);
            let i = choose|i: int| 0 <= i < front.len() && front[i] == still[k];
            assert(front[i].start_ms + offset <= u64::MAX);
        }
        if m < n {
            assert(still[m].start_ms <= c.start_ms);
            assert(shifted[m].start_ms == moved(still[m], offset).start_ms);
            assert(false);
        }
        let a = time_ordered(all_moved(s, offset));
        let b = time_ordered(s);
        assert(a == shifted.insert(m, mc));
        assert(b == still.insert(n, c));
        assert forall|k: int| n <= k < m implies (#[trigger] shifted[k]).start_ms
            == mc.start_ms by {
            assert(still[k].start_ms > c.start_ms);
            assert(shifted[k].start_ms == moved(still[k], offset).start_ms);
        }
        assert forall|i: int| 0 <= i < b.len() implies (#[trigger] a[i]).start_ms == moved(
            b[i],
            offset,
        ).start_ms by {
            if i < n {
                assert(a[i] == shifted[i] && b[i] == still[i]);
            } else if i == n {
                if i < m {
                    assert(a[i] == shifted[i]);
                }
            } else {
                assert(b[i] == still[i - 1]);
                if i < m {
                    assert(a[i] == shifted[i]);
                    assert(shifted[i - 1].start_ms == mc.start_ms);
                } else if i == m {
                    assert(shifted[i - 1].start_ms == mc.start_ms);
                } else {
                    assert(a[i] == shifted[i - 1]);
                }
            }
        }
        if keeps_apart(s, offset) {
            assert forall|i: int, j: int|
                0 <= i < j < front.len() && front[j].start_ms < front[i].start_ms implies moved(
                front[j],
                offset,
            ).start_ms < moved(front[i], offset).start_ms || front[j].text == front[i].text by {
                assert(front[i] == s[i] && front[j] == s[j]);
            }
            assert(keeps_apart(front, offset));
            assert(shifted == all_moved(still, offset));
            assert forall|k: int| n <= k < m implies #[trigger] shifted[k] == mc by {
                let i = choose|i: int| 0 <= i < front.len() && front[i] == still[k];
                assert(front.contains(still[k]));
                assert(s[i] == still[k]);
                assert(s[s.len() - 1] == c);
                assert(still[k].start_ms > c.start_ms);
                assert(shifted[k] == moved(still[k], offset));
            }
            assert(a == all_moved(b, offset)) by {
                assert forall|i: int| 0 <= i < b.len() implies #[trigger] a[i] == moved(
                    b[i],
                    offset,
                ) by {
                    if i < n {
                        assert(a[i] == shifted[i] && b[i] == still[i]);
                    } else if i == n {
                        if i < m {
                            assert(a[i] == shifted[i]);
                        }
                    } else {
                        assert(b[i] == still[i - 1]);
                        if i < m {
                            assert(a[i] == shifted[i]);
                            assert(shifted[i - 1] == mc);
                        } else if i == m {
                            assert(shifted[i - 1] == mc);
                        } else {
                            assert(a[i] == shifted[i - 1]);
                        }
                    }
                }
            }
        }
    }
}

/// A cue of a sequence in the order of time is one of the sequence.
pub proof fn lemma_cue_comes_from(s: Seq<Cue>, k: int)
    requires
        0 <= k < time_ordered(s).len(),
    ensures
        s.contains(time_ordered(s)[k]),
{
    lemma_time_ordered(s);
    s.to_multiset_ensures();
    time_ordered(s).to_multiset_ensures();
    let c = time_ordered(s)[k];
    assert(time_ordered(s).contains(c));
    assert(time_ordered(s).to_multiset().count(c) > 0);
}

/// Cues are in the order of time exactly where none starts before one in front
/// of it.
pub proof fn law_order_of_time(s: Seq<Cue>)
    ensures
        in_time_order(s) <==> forall|i: int, j: int|
            0 <= i < j < s.len() ==> s[i].start_ms <= s[j].start_ms,
{
}

/// Putting cues in the order of time keeps them all, orders them by their
/// starts, and leaves those that start together in the order they had.
pub proof fn law_ordering_is_a_stable_sort(s: Seq<Cue>, t: u64)
    ensures
        time_ordered(s).to_multiset() == s.to_multiset(),
        forall|i: int, j: int|
            0 <= i < j < time_ordered(s).len() ==> time_ordered(s)[i].start_ms
                <= time_ordered(s)[j].start_ms,
        time_ordered(s).filter(|c: Cue| c.start_ms == t) == s.filter(|c: Cue| c.start_ms == t),
{
    lemma_time_ordered(s);
    lemma_time_ordered_is_stable(s, t);
}

} // verus!

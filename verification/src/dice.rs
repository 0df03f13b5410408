use vstd::prelude::*;
use vstd::multiset::Multiset;
use vstd::relations::{sorted_by, total_ordering};
use crate::scoring::all_faces;

verus! {

broadcast use vstd::seq_lib::group_to_multiset_ensures;

/// Dice are ordered by their faces.
pub open spec fn face_order() -> spec_fn(u32, u32) -> bool {
    |x: u32, y: u32| x <= y
}

/// The dice in ascending order of their faces.
pub open spec fn sorted_dice(s: Seq<u32>) -> Seq<u32> {
    s.sort_by(face_order())
}

/// The faces never decrease along the dice.
pub open spec fn is_sorted(s: Seq<u32>) -> bool {
    forall|i: int, j: int| 0 <= i < j < s.len() ==> s[i] <= s[j]
}

proof fn lemma_face_order_total()
    ensures
        total_ordering(face_order()),
{
}

/// Sorting keeps exactly the same dice and puts them in ascending order.
pub proof fn lemma_sorted_dice(s: Seq<u32>)
    ensures
        is_sorted(sorted_dice(s)),
        sorted_dice(s).to_multiset() == s.to_multiset(),
        sorted_dice(s).len() == s.len(),
{
    lemma_face_order_total();
    s.lemma_sort_by_ensures(face_order());
    let t = sorted_dice(s);
    assert forall|i: int, j: int| 0 <= i < j < t.len() implies t[i] <= t[j] by {
        assert(face_order()(t[i], t[j]));
    }
    assert(t.len() == t.to_multiset().len());
    assert(s.len() == s.to_multiset().len());
}

/// An ascending arrangement of some dice is the sorted arrangement of them.
pub proof fn lemma_sorted_unique(x: Seq<u32>, y: Seq<u32>)
    requires
        is_sorted(x),
        x.to_multiset() == y.to_multiset(),
    ensures
        x == sorted_dice(y),
{
    lemma_face_order_total();
    lemma_sorted_dice(y);
    let t = sorted_dice(y);
    assert(sorted_by(x, face_order()));
    assert(sorted_by(t, face_order())) by {
        assert forall|i: int, j: int| 0 <= i < j < t.len() implies #[trigger] face_order()(t[i], t[j]) by {
        }
    }
    vstd::seq_lib::lemma_sorted_unique(x, t, face_order());
}

/// Places `x` among ascending dice so that they stay ascending.
fn insert_in_order(v: &mut Vec<u32>, x: u32)
    requires
        is_sorted(old(v)@),
    ensures
        is_sorted(final(v)@),
        final(v)@.to_multiset() == old(v)@.to_multiset().insert(x),
{
    let mut p: usize = 0;
    while p < v.len() && v[p] < x
        invariant
            p <= v.len(),
            forall|i: int| 0 <= i < p ==> v[i] < x,
        decreases v.len() - p,
    {
        p = p + 1;
    }
    let ghost before = v@;
    v.insert(p, x);
    proof {
        assert(v@ == before.insert(p as int, x));
        assert forall|i: int, j: int| 0 <= i < j < v@.len() implies v@[i] <= v@[j] by {
            if j < p {
                assert(v@[i] == before[i] && v@[j] == before[j]);
            } else if j == p {
                assert(v@[i] == before[i]);
            } else if i == p {
                assert(v@[j] == before[j - 1]);
                assert(before[p as int] >= x);
                if j - 1 > p {
                    assert(before[p as int] <= before[j - 1]);
                }
            } else if i < p {
                assert(v@[i] == before[i] && v@[j] == before[j - 1]);
            } else {
                assert(v@[i] == before[i - 1] && v@[j] == before[j - 1]);
            }
        }
    }
}

/// The dice in ascending order of their faces.
pub fn sort_dice(dice: &[u32]) -> (sorted: Vec<u32>)
    ensures
        sorted@ == sorted_dice(dice@),
{
    let mut sorted: Vec<u32> = Vec::new();
    let mut i: usize = 0;
    while i < dice.len()
        invariant
            i <= dice.len(),
            is_sorted(sorted@),
            sorted@.to_multiset() == dice@.take(i as int).to_multiset(),
        decreases dice.len() - i,
    {
        insert_in_order(&mut sorted, dice[i]);
        proof {
            assert(dice@.take(i + 1) =~= dice@.take(i as int).push(dice@[i as int]));
        }
        i = i + 1;
    }
    proof {
        assert(dice@.take(i as int) =~= dice@);
        lemma_sorted_unique(sorted@, dice@);
    }
    sorted
}


/// The dice at the chosen positions, in the order in which they were chosen.
pub open spec fn picked(dice: Seq<u32>, sel: Seq<usize>) -> Seq<u32> {
    sel.map_values(|i: usize| dice[i as int])
}

/// Among the first `n` dice, those whose positions were not chosen, in order.
pub open spec fn kept_upto(dice: Seq<u32>, sel: Seq<usize>, n: int) -> Seq<u32>
    decreases n,
{
    if n <= 0 {
        seq![]
    } else if sel.contains((n - 1) as usize) {
        kept_upto(dice, sel, n - 1)
    } else {
        kept_upto(dice, sel, n - 1).push(dice[n - 1])
    }
}

/// The dice whose positions were not chosen, in order.
pub open spec fn kept(dice: Seq<u32>, sel: Seq<usize>) -> Seq<u32> {
    kept_upto(dice, sel, dice.len() as int)
}

proof fn lemma_kept_none(dice: Seq<u32>, sel: Seq<usize>, n: int)
    requires
        sel.len() == 0,
        0 <= n <= dice.len(),
    ensures
        kept_upto(dice, sel, n) == dice.take(n),
    decreases n,
{
    if n > 0 {
        lemma_kept_none(dice, sel, n - 1);
        assert(dice.take(n) =~= dice.take(n - 1).push(dice[n - 1]));
    } else {
        assert(dice.take(n) =~= seq![]);
    }
}

/// Choosing one more position `m` drops exactly the die at `m` from the kept dice.
proof fn lemma_kept_one_more(dice: Seq<u32>, s: Seq<usize>, m: usize, n: int)
    requires
        !s.contains(m),
        m < dice.len(),
        0 <= n <= dice.len(),
        dice.len() <= usize::MAX,
    ensures
        n > m ==> kept_upto(dice, s, n).to_multiset() == kept_upto(dice, s.push(m), n).to_multiset().insert(
            dice[m as int],
        ),
        n <= m ==> kept_upto(dice, s, n) == kept_upto(dice, s.push(m), n),
    decreases n,
{
    broadcast use vstd::multiset::group_multiset_axioms;

    let sel = s.push(m);
    if n > 0 {
        lemma_kept_one_more(dice, s, m, n - 1);
        let j = (n - 1) as usize;
        assert(sel.contains(j) <==> s.contains(j) || j == m) by {
            if sel.contains(j) {
                let k = choose|k: int| 0 <= k < sel.len() && sel[k] == j;
                if k < s.len() {
                    assert(s[k] == j);
                }
            }
            if s.contains(j) {
                let k = choose|k: int| 0 <= k < s.len() && s[k] == j;
                assert(sel[k] == j);
            }
            if j == m {
                assert(sel[s.len() as int] == j);
            }
        }
        let a = kept_upto(dice, s, n - 1);
        let b = kept_upto(dice, sel, n - 1);
        if n - 1 == m {
            assert(kept_upto(dice, s, n) == a.push(dice[m as int]));
            assert(kept_upto(dice, sel, n) == b);
        } else if n - 1 > m {
            if !s.contains(j) {
                let x = dice[n - 1];
                assert(kept_upto(dice, s, n) == a.push(x));
                assert(kept_upto(dice, sel, n) == b.push(x));
                assert(a.push(x).to_multiset() == a.to_multiset().insert(x));
                assert(b.push(x).to_multiset() == b.to_multiset().insert(x));
                assert(b.to_multiset().insert(dice[m as int]).insert(x) =~= b.to_multiset().insert(x).insert(
                    dice[m as int],
                ));
            }
        }
    }
}

/// When no position is chosen twice, choosing splits the dice: the dice
/// picked and the dice kept together are exactly the dice there were.
pub proof fn lemma_split_keeps_all(dice: Seq<u32>, sel: Seq<usize>)
    requires
        sel.no_duplicates(),
        forall|k: int| 0 <= k < sel.len() ==> #[trigger] sel[k] < dice.len(),
        dice.len() <= usize::MAX,
    ensures
        picked(dice, sel).to_multiset().add(kept(dice, sel).to_multiset()) == dice.to_multiset(),
    decreases sel.len(),
{
    broadcast use vstd::multiset::group_multiset_axioms;

    if sel.len() == 0 {
        lemma_kept_none(dice, sel, dice.len() as int);
        assert(dice.take(dice.len() as int) =~= dice);
        assert(picked(dice, sel) =~= seq![]);
        assert(picked(dice, sel).to_multiset() =~= Multiset::empty());
        assert(picked(dice, sel).to_multiset().add(kept(dice, sel).to_multiset()) =~= dice.to_multiset());
    } else {
        let s = sel.drop_last();
        let m = sel.last();
        assert(sel =~= s.push(m));
        assert forall|k: int| 0 <= k < s.len() implies #[trigger] s[k] < dice.len() by {
            assert(s[k] == sel[k]);
        }
        assert(s.no_duplicates()) by {
            assert forall|i: int, j: int| 0 <= i < s.len() && 0 <= j < s.len() && i != j implies s[i] != s[j] by {
                assert(s[i] == sel[i] && s[j] == sel[j]);
            }
        }
        assert(!s.contains(m)) by {
            if s.contains(m) {
                let k = choose|k: int| 0 <= k < s.len() && s[k] == m;
                assert(sel[k] == sel[sel.len() - 1]);
            }
        }
        assert(m == sel[sel.len() - 1]);
        lemma_split_keeps_all(dice, s);
        lemma_kept_one_more(dice, s, m, dice.len() as int);
        assert(picked(dice, sel) =~= picked(dice, s).push(dice[m as int]));
        let ps = picked(dice, s).to_multiset();
        let ks = kept(dice, s).to_multiset();
        let kl = kept(dice, sel).to_multiset();
        assert(ks == kl.insert(dice[m as int]));
        assert(picked(dice, sel).to_multiset() == ps.insert(dice[m as int]));
        assert(ps.insert(dice[m as int]).add(kl) =~= ps.add(kl.insert(dice[m as int])));
    }
}


/// Rearranging dice keeps their faces between 1 and 6.
pub proof fn lemma_faces_of_rearranged(s: Seq<u32>, t: Seq<u32>)
    requires
        all_faces(s),
        t.to_multiset() == s.to_multiset(),
    ensures
        all_faces(t),
{
    assert forall|k: int| 0 <= k < t.len() implies 1 <= #[trigger] t[k] <= 6 by {
        assert(t.contains(t[k]));
        assert(t.to_multiset().count(t[k]) > 0);
        assert(s.contains(t[k]));
    }
}

/// The kept dice are some of the dice, so they show faces between 1 and 6.
pub proof fn lemma_faces_of_kept(dice: Seq<u32>, sel: Seq<usize>, n: int)
    requires
        all_faces(dice),
        n <= dice.len(),
    ensures
        all_faces(kept_upto(dice, sel, n)),
    decreases n,
{
    if n > 0 {
        lemma_faces_of_kept(dice, sel, n - 1);
    }
}

/// Choosing every position picks all dice, in order, and keeps none.
pub proof fn lemma_choose_all(dice: Seq<u32>, sel: Seq<usize>, n: int)
    requires
        sel.len() == dice.len(),
        forall|k: int| 0 <= k < sel.len() ==> #[trigger] sel[k] == k,
        0 <= n <= dice.len(),
    ensures
        picked(dice, sel) == dice,
        kept_upto(dice, sel, n) == Seq::<u32>::empty(),
    decreases n,
{
    assert(picked(dice, sel) =~= dice);
    if n > 0 {
        lemma_choose_all(dice, sel, n - 1);
        assert(sel[n - 1] == (n - 1) as usize);
    }
}

} // verus!

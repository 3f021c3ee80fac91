//! The history resolver: applies a classified change to the identified note
//! list, keeping identifiers wherever a note survives.
use vstd::prelude::*;
use crate::classify::{Transforms, TransformsView, pair_seq, placed_view, positions_view};
use crate::ident::note_uuid;
use crate::note::{Identified, Note, NoteView, identified_view};

verus! {

pub open spec fn apply_additions(sub: Seq<(u128, NoteView)>, adds: Seq<(int, NoteView)>, host: u128) -> Seq<(u128, NoteView)>
    decreases adds.len(),
{
    if adds.len() == 0 {
        sub
    } else {
        let prev = apply_additions(sub, adds.drop_last(), host);
        prev.insert(adds.last().0, (note_uuid(host, adds.last().1), adds.last().1))
    }
}

pub open spec fn apply_deletions<T>(sub: Seq<T>, dels: Seq<int>) -> Seq<T>
    decreases dels.len(),
{
    if dels.len() == 0 {
        sub
    } else {
        apply_deletions(sub, dels.drop_last()).remove(dels.last())
    }
}

pub open spec fn apply_modifications(sub: Seq<(u128, NoteView)>, mods: Seq<(int, NoteView)>) -> Seq<(u128, NoteView)>
    decreases mods.len(),
{
    if mods.len() == 0 {
        sub
    } else {
        let prev = apply_modifications(sub, mods.drop_last());
        prev.update(mods.last().0, (prev[mods.last().0].0, mods.last().1))
    }
}

pub open spec fn swapped<T>(s: Seq<T>, a: int, b: int) -> Seq<T> {
    s.update(a, s[b]).update(b, s[a])
}

pub open spec fn apply_swaps<T>(sub: Seq<T>, pairs: Seq<(int, int)>) -> Seq<T>
    decreases pairs.len(),
{
    if pairs.len() == 0 {
        sub
    } else {
        swapped(apply_swaps(sub, pairs.drop_last()), pairs.last().0, pairs.last().1)
    }
}

/// Each addition's position is within the list as grown by the ones before it.
pub open spec fn additions_fit(len: int, adds: Seq<(int, NoteView)>) -> bool {
    forall|k: int| 0 <= k < adds.len() ==> 0 <= #[trigger] adds[k].0 <= len + k
}

/// Each deletion's position is within the list as shrunk by the ones before it.
pub open spec fn deletions_fit(len: int, dels: Seq<int>) -> bool {
    forall|k: int| 0 <= k < dels.len() ==> 0 <= #[trigger] dels[k] < len - k
}

pub open spec fn modifications_fit(len: int, mods: Seq<(int, NoteView)>) -> bool {
    forall|k: int| 0 <= k < mods.len() ==> 0 <= #[trigger] mods[k].0 < len
}

pub open spec fn swaps_fit(len: int, pairs: Seq<(int, int)>) -> bool {
    forall|k: int| 0 <= k < pairs.len() ==> 0 <= #[trigger] pairs[k].0 < len && 0 <= pairs[k].1 < len
}

/// Whether every position that `t` names is valid where it is applied, to a
/// list of length `len`.
pub open spec fn applicable(t: TransformsView, len: int) -> bool {
    match t {
        TransformsView::Additions(v) => additions_fit(len, v),
        TransformsView::Deletions(v) => deletions_fit(len, v),
        TransformsView::Modifications(v) => modifications_fit(len, v),
        TransformsView::Reorders(v) => swaps_fit(len, v),
    }
}

/// The identified list after applying `t` in the order it lists its steps.
pub open spec fn resolved(t: TransformsView, sub: Seq<(u128, NoteView)>, host: u128) -> Seq<(u128, NoteView)> {
    match t {
        TransformsView::Additions(v) => apply_additions(sub, v, host),
        TransformsView::Deletions(v) => apply_deletions(sub, v),
        TransformsView::Modifications(v) => apply_modifications(sub, v),
        TransformsView::Reorders(v) => apply_swaps(sub, v),
    }
}

/// Whether `t` can be applied to a list of length `len`.
pub fn is_applicable(t: &Transforms, len: usize) -> (r: bool)
    ensures
        r == applicable(t@, len as int),
{
    match t {
        Transforms::Additions(v) => {
            let mut k: usize = 0;
            while k < v.len()
                invariant
                    t@ == TransformsView::Additions(placed_view(v@)),
                    k <= v.len(),
                    forall|m: int| 0 <= m < k ==> 0 <= #[trigger] placed_view(v@)[m].0 <= len + m,
                decreases v.len() - k,
            {
                if v[k].0 as u128 > len as u128 + k as u128 {
                    assert(!(placed_view(v@)[k as int].0 <= len + k));
                    assert(!additions_fit(len as int, placed_view(v@)));
                    assert(t@ == TransformsView::Additions(placed_view(v@)));
                    return false;
                }
                k = k + 1;
            }
            true
        },
        Transforms::Deletions(v) => {
            let mut k: usize = 0;
            while k < v.len()
                invariant
                    t@ == TransformsView::Deletions(positions_view(v@)),
                    k <= v.len(),
                    forall|m: int| 0 <= m < k ==> 0 <= #[trigger] positions_view(v@)[m] < len - m,
                decreases v.len() - k,
            {
                if k >= len || v[k] >= len - k {
                    assert(!(0 <= positions_view(v@)[k as int] < len - k));
                    assert(!deletions_fit(len as int, positions_view(v@)));
                    assert(t@ == TransformsView::Deletions(positions_view(v@)));
                    return false;
                }
                k = k + 1;
            }
            true
        },
        Transforms::Modifications(v) => {
            let mut k: usize = 0;
            while k < v.len()
                invariant
                    t@ == TransformsView::Modifications(placed_view(v@)),
                    k <= v.len(),
                    forall|m: int| 0 <= m < k ==> 0 <= #[trigger] placed_view(v@)[m].0 < len,
                decreases v.len() - k,
            {
                if v[k].0 >= len {
                    assert(!(placed_view(v@)[k as int].0 < len));
                    assert(!modifications_fit(len as int, placed_view(v@)));
                    assert(t@ == TransformsView::Modifications(placed_view(v@)));
                    return false;
                }
                k = k + 1;
            }
            true
        },
        Transforms::Reorders(v) => {
            let mut k: usize = 0;
            while k < v.len()
                invariant
                    t@ == TransformsView::Reorders(pair_seq(v@)),
                    k <= v.len(),
                    forall|m: int| 0 <= m < k ==> 0 <= #[trigger] pair_seq(v@)[m].0 < len && 0 <= pair_seq(v@)[m].1 < len,
                decreases v.len() - k,
            {
                if v[k].0 >= len || v[k].1 >= len {
                    assert(!(pair_seq(v@)[k as int].0 < len && pair_seq(v@)[k as int].1 < len));
                    assert(!swaps_fit(len as int, pair_seq(v@)));
                    assert(t@ == TransformsView::Reorders(pair_seq(v@)));
                    return false;
                }
                k = k + 1;
            }
            true
        },
    }
}

/// Exchanges the entries at `a` and `b`.
fn swap_entries<T>(v: &mut Vec<T>, a: usize, b: usize)
    requires
        a < old(v)@.len(),
        b < old(v)@.len(),
    ensures
        final(v)@ == swapped(old(v)@, a as int, b as int),
{
    if a == b {
        assert(swapped(old(v)@, a as int, b as int) =~= old(v)@);
        return;
    }
    let (lo, hi) = if a < b { (a, b) } else { (b, a) };
    let ghost s = v@;
    let y = v.remove(hi);
    let x = v.remove(lo);
    v.insert(lo, y);
    v.insert(hi, x);
    assert(v@ =~= swapped(s, a as int, b as int));
}

/// Applies a classified change to the identified note list. Added notes get
/// the identifier of their content in the host namespace; modified notes keep
/// the identifier of the note they replace.
pub fn resolve_changes(transformations: &Transforms, substrate: &mut Vec<Identified<Note>>, host_uuid: u128)
    requires
        applicable(transformations@, old(substrate)@.len() as int),
    ensures
        identified_view(final(substrate)@) == resolved(transformations@, identified_view(old(substrate)@), host_uuid),
{
    let ghost start = identified_view(substrate@);
    match transformations {
        Transforms::Additions(additions) => {
            let ghost pv = placed_view(additions@);
            let mut k: usize = 0;
            while k < additions.len()
                invariant
                    k <= additions.len(),
                    pv == placed_view(additions@),
                    additions_fit(start.len() as int, pv),
                    substrate@.len() == start.len() + k,
                    identified_view(substrate@) == apply_additions(start, pv.take(k as int), host_uuid),
                decreases additions.len() - k,
            {
                let (idx, note) = &additions[k];
                assert(pv[k as int].0 == *idx as int);
                assert(0 <= pv[k as int].0 <= start.len() + k);
                let id = note.identifier(host_uuid);
                let ghost before = substrate@;
                substrate.insert(*idx, Identified { id, inner: note.clone() });
                k = k + 1;
                proof {
                    let t = pv.take(k as int);
                    assert(t.drop_last() =~= pv.take(k - 1));
                    assert(identified_view(substrate@) =~= identified_view(before).insert(*idx as int, (id, note@)));
                }
            }
            assert(pv.take(additions.len() as int) =~= pv);
        },
        Transforms::Deletions(deletions) => {
            let ghost dv = positions_view(deletions@);
            let mut k: usize = 0;
            while k < deletions.len()
                invariant
                    k <= deletions.len(),
                    dv == positions_view(deletions@),
                    deletions_fit(start.len() as int, dv),
                    substrate@.len() == start.len() - k,
                    identified_view(substrate@) == apply_deletions(start, dv.take(k as int)),
                decreases deletions.len() - k,
            {
                let idx = deletions[k];
                assert(dv[k as int] == idx as int);
                assert(0 <= dv[k as int] < start.len() - k);
                let ghost before = substrate@;
                substrate.remove(idx);
                k = k + 1;
                proof {
                    let t = dv.take(k as int);
                    assert(t.drop_last() =~= dv.take(k - 1));
                    assert(identified_view(substrate@) =~= identified_view(before).remove(idx as int));
                }
            }
            assert(dv.take(deletions.len() as int) =~= dv);
        },
        Transforms::Modifications(modifications) => {
            let ghost mv = placed_view(modifications@);
            let mut k: usize = 0;
            while k < modifications.len()
                invariant
                    k <= modifications.len(),
                    mv == placed_view(modifications@),
                    modifications_fit(start.len() as int, mv),
                    substrate@.len() == start.len(),
                    identified_view(substrate@) == apply_modifications(start, mv.take(k as int)),
                decreases modifications.len() - k,
            {
                let (idx, note) = &modifications[k];
                assert(mv[k as int].0 == *idx as int);
                assert(0 <= mv[k as int].0 < start.len());
                let existing = substrate[*idx].id;
                let ghost before = substrate@;
                substrate.set(*idx, Identified { id: existing, inner: note.clone() });
                k = k + 1;
                proof {
                    let t = mv.take(k as int);
                    assert(t.drop_last() =~= mv.take(k - 1));
                    assert(identified_view(substrate@) =~= identified_view(before).update(*idx as int, (existing, note@)));
                }
            }
            assert(mv.take(modifications.len() as int) =~= mv);
        },
        Transforms::Reorders(pairs) => {
            let ghost ps = pair_seq(pairs@);
            let mut k: usize = 0;
            while k < pairs.len()
                invariant
                    k <= pairs.len(),
                    ps == pair_seq(pairs@),
                    swaps_fit(start.len() as int, ps),
                    substrate@.len() == start.len(),
                    identified_view(substrate@) == apply_swaps(start, ps.take(k as int)),
                decreases pairs.len() - k,
            {
                let (a, b) = pairs[k];
                assert(ps[k as int] == (a as int, b as int));
                assert(0 <= ps[k as int].0 < start.len() && 0 <= ps[k as int].1 < start.len());
                let ghost before = substrate@;
                swap_entries(substrate, a, b);
                k = k + 1;
                proof {
                    let t = ps.take(k as int);
                    assert(t.drop_last() =~= ps.take(k - 1));
                    assert(identified_view(substrate@) =~= swapped(identified_view(before), a as int, b as int));
                }
            }
            assert(ps.take(pairs.len() as int) =~= ps);
        },
    }
}

} // verus!

verus! {

/// Modifications keep the list's length and every entry's identifier.
pub proof fn lemma_modifications_keep_ids(sub: Seq<(u128, NoteView)>, mods: Seq<(int, NoteView)>)
    requires
        modifications_fit(sub.len() as int, mods),
    ensures
        apply_modifications(sub, mods).len() == sub.len(),
        forall|i: int| 0 <= i < sub.len() ==> #[trigger] apply_modifications(sub, mods)[i].0 == sub[i].0,
    decreases mods.len(),
{
    if mods.len() > 0 {
        assert forall|k: int| 0 <= k < mods.drop_last().len() implies 0 <= #[trigger] mods.drop_last()[k].0 < sub.len() by {
            assert(mods.drop_last()[k] == mods[k]);
        }
        lemma_modifications_keep_ids(sub, mods.drop_last());
        assert(0 <= mods[mods.len() - 1].0 < sub.len());
    }
}

} // verus!

verus! {

/// `s` without the entries at the positions in `d`.
pub open spec fn drop_positions<T>(s: Seq<T>, d: Set<int>) -> Seq<T>
    decreases s.len(),
{
    if s.len() == 0 {
        s
    } else {
        let p = drop_positions(s.drop_last(), d);
        if d.contains(s.len() - 1) { p } else { p.push(s.last()) }
    }
}

pub open spec fn strictly_descending(d: Seq<int>) -> bool {
    forall|a: int, b: int| 0 <= a < b < d.len() ==> #[trigger] d[a] > #[trigger] d[b]
}

proof fn lemma_drop_none<T>(s: Seq<T>, d: Set<int>)
    requires
        forall|x: int| d.contains(x) ==> x >= s.len(),
    ensures
        drop_positions(s, d) == s,
    decreases s.len(),
{
    if s.len() > 0 {
        lemma_drop_none(s.drop_last(), d);
        assert(s.drop_last().push(s.last()) =~= s);
    }
}

proof fn lemma_drop_keeps_prefix<T>(s: Seq<T>, d: Set<int>, m: int)
    requires
        0 <= m < s.len(),
        forall|x: int| d.contains(x) ==> x > m,
    ensures
        drop_positions(s, d).len() > m,
        forall|k: int| 0 <= k <= m ==> drop_positions(s, d)[k] == s[k],
    decreases s.len(),
{
    if s.len() - 1 == m {
        lemma_drop_none(s.drop_last(), d);
        assert(s.drop_last().push(s.last()) =~= s);
    } else {
        lemma_drop_keeps_prefix(s.drop_last(), d, m);
        let p = drop_positions(s.drop_last(), d);
        assert forall|k: int| 0 <= k <= m implies drop_positions(s, d)[k] == s[k] by {
            assert(p[k] == s.drop_last()[k]);
            if !d.contains(s.len() - 1) {
                assert(p.push(s.last())[k] == p[k]);
            }
        }
    }
}

proof fn lemma_drop_one_more<T>(s: Seq<T>, d: Set<int>, m: int)
    requires
        0 <= m < s.len(),
        !d.contains(m),
        forall|x: int| d.contains(x) ==> x > m,
    ensures
        drop_positions(s, d).remove(m) == drop_positions(s, d.insert(m)),
    decreases s.len(),
{
    let n = s.len();
    if n - 1 == m {
        lemma_drop_none(s.drop_last(), d);
        lemma_drop_none(s.drop_last(), d.insert(m));
        assert(s.drop_last().push(s.last()).remove(m) =~= s.drop_last());
    } else {
        lemma_drop_one_more(s.drop_last(), d, m);
        if !d.contains(n - 1) {
            lemma_drop_keeps_prefix(s.drop_last(), d, m);
            let p = drop_positions(s.drop_last(), d);
            assert(p.push(s.last()).remove(m) =~= p.remove(m).push(s.last()));
        }
    }
}

/// Removing positions one by one, highest first, gives the list without all
/// of them, as removing them at once would: each removal leaves the lower
/// positions still to come where they were.
pub proof fn lemma_deletions_commute<T>(s: Seq<T>, d: Seq<int>)
    requires
        strictly_descending(d),
        forall|k: int| 0 <= k < d.len() ==> 0 <= #[trigger] d[k] < s.len(),
    ensures
        apply_deletions(s, d) == drop_positions(s, d.to_set()),
    decreases d.len(),
{
    if d.len() == 0 {
        assert(d.to_set() =~= Set::<int>::empty());
        lemma_drop_none(s, Set::<int>::empty());
    } else {
        let d1 = d.drop_last();
        let m = d.last();
        assert forall|k: int| 0 <= k < d1.len() implies 0 <= #[trigger] d1[k] < s.len() by {
            assert(d1[k] == d[k]);
        }
        assert(strictly_descending(d1)) by {
            assert forall|a: int, b: int| 0 <= a < b < d1.len() implies #[trigger] d1[a] > #[trigger] d1[b] by {
                assert(d[a] > d[b]);
            }
        }
        lemma_deletions_commute(s, d1);
        assert forall|x: int| d1.to_set().contains(x) implies x > m by {
            let k = choose|k: int| 0 <= k < d1.len() && d1[k] == x;
            assert(d[k] > d[d.len() - 1]);
        }
        assert(0 <= d[d.len() - 1] < s.len());
        lemma_drop_one_more(s, d1.to_set(), m);
        assert(d.to_set() =~= d1.to_set().insert(m)) by {
            assert forall|x: int| d.to_set().contains(x) <==> d1.to_set().insert(m).contains(x) by {
                if d.contains(x) {
                    let k = choose|k: int| 0 <= k < d.len() && d[k] == x;
                    if k < d.len() - 1 {
                        assert(d1[k] == x);
                    }
                }
                if d1.contains(x) {
                    let k = choose|k: int| 0 <= k < d1.len() && d1[k] == x;
                    assert(d[k] == x);
                }
            }
        }
    }
}

proof fn lemma_deletions_sorted(old: Seq<NoteView>, new: Seq<NoteView>, i: int, j: int)
    requires
        0 <= i,
    ensures
        forall|k: int| 0 <= k < crate::classify::deletions_from(old, new, i, j).len()
            ==> i <= #[trigger] crate::classify::deletions_from(old, new, i, j)[k] < old.len(),
        forall|a: int, b: int| 0 <= a < b < crate::classify::deletions_from(old, new, i, j).len()
            ==> #[trigger] crate::classify::deletions_from(old, new, i, j)[a]
                < #[trigger] crate::classify::deletions_from(old, new, i, j)[b],
    decreases old.len() - i,
{
    if i < old.len() {
        if 0 <= j < new.len() && old[i] == new[j] {
            lemma_deletions_sorted(old, new, i + 1, j + 1);
            assert(crate::classify::deletions_from(old, new, i, j) == crate::classify::deletions_from(old, new, i + 1, j + 1));
        } else {
            lemma_deletions_sorted(old, new, i + 1, j);
            let rest = crate::classify::deletions_from(old, new, i + 1, j);
            let r = crate::classify::deletions_from(old, new, i, j);
            assert(r == seq![i] + rest);
            assert forall|a: int, b: int| 0 <= a < b < r.len() implies #[trigger] r[a] < #[trigger] r[b] by {
                if a > 0 {
                    assert(r[a] == rest[a - 1] && r[b] == rest[b - 1]);
                } else {
                    assert(r[b] == rest[b - 1]);
                }
            }
            assert forall|k: int| 0 <= k < r.len() implies i <= #[trigger] r[k] < old.len() by {
                if k > 0 {
                    assert(r[k] == rest[k - 1]);
                }
            }
        }
    }
}

/// The deletions that the classifier finds, applied in the order it lists
/// them to a list as long as the old one, remove exactly the entries at
/// their positions, as removing them all at once would.
pub proof fn lemma_classified_deletions_commute<T>(s: Seq<T>, old: Seq<NoteView>, new: Seq<NoteView>)
    requires
        s.len() == old.len(),
    ensures
        apply_deletions(s, crate::classify::deletions_from(old, new, 0, 0).reverse())
            == drop_positions(s, crate::classify::deletions_from(old, new, 0, 0).to_set()),
{
    let d = crate::classify::deletions_from(old, new, 0, 0);
    lemma_deletions_sorted(old, new, 0, 0);
    let r = d.reverse();
    assert forall|a: int, b: int| 0 <= a < b < r.len() implies #[trigger] r[a] > #[trigger] r[b] by {
        assert(r[a] == d[d.len() - 1 - a] && r[b] == d[d.len() - 1 - b]);
    }
    assert forall|k: int| 0 <= k < r.len() implies 0 <= #[trigger] r[k] < s.len() by {
        assert(r[k] == d[d.len() - 1 - k]);
    }
    lemma_deletions_commute(s, r);
    assert(r.to_set() =~= d.to_set()) by {
        assert forall|x: int| r.to_set().contains(x) <==> d.to_set().contains(x) by {
            if r.contains(x) {
                let k = choose|k: int| 0 <= k < r.len() && r[k] == x;
                assert(d[d.len() - 1 - k] == x);
            }
            if d.contains(x) {
                let k = choose|k: int| 0 <= k < d.len() && d[k] == x;
                assert(r[d.len() - 1 - k] == x);
            }
        }
    }
}

} // verus!

verus! {

broadcast use vstd::seq_lib::group_to_multiset_ensures;

/// The position in `new` of the note at position `i` of `old`.
pub open spec fn partner(old: Seq<NoteView>, new: Seq<NoteView>, i: int) -> int {
    crate::classify::index_from(new, old[i], 0)
}

/// `new` is `old`, whose notes are distinct, with some disjoint pairs of
/// notes exchanged.
pub open spec fn swapped_version(old: Seq<NoteView>, new: Seq<NoteView>) -> bool {
    &&& old.len() == new.len()
    &&& old.no_duplicates()
    &&& new.no_duplicates()
    &&& old.to_multiset() == new.to_multiset()
    &&& forall|i: int, j: int|
        0 <= i < old.len() && 0 <= j < new.len() && #[trigger] new[j] == #[trigger] old[i] ==> new[i] == old[j]
}

/// The pairs `(p, partner(p))` with `p < partner(p)`, for `p` below `i`, in order.
pub open spec fn pairs_below(old: Seq<NoteView>, new: Seq<NoteView>, i: int) -> Seq<(int, int)>
    decreases i,
{
    if i <= 0 {
        Seq::empty()
    } else {
        let prev = pairs_below(old, new, i - 1);
        if i - 1 < partner(old, new, i - 1) { prev.push((i - 1, partner(old, new, i - 1))) } else { prev }
    }
}

proof fn lemma_first_index_of_distinct(s: Seq<NoteView>, i: int)
    requires
        s.no_duplicates(),
        0 <= i < s.len(),
    ensures
        crate::classify::index_from(s, s[i], 0) == i,
{
    crate::classify::lemma_index_from(s, s[i], 0);
    let k = crate::classify::index_from(s, s[i], 0);
    if k != i {
        assert(k < i);
        assert(s[k] == s[i]);
    }
}

proof fn lemma_partner(old: Seq<NoteView>, new: Seq<NoteView>, i: int)
    requires
        swapped_version(old, new),
        0 <= i < old.len(),
    ensures
        0 <= partner(old, new, i) < new.len(),
        new[partner(old, new, i)] == old[i],
        new[i] == old[partner(old, new, i)],
        partner(old, new, partner(old, new, i)) == i,
        (partner(old, new, i) == i) == (old[i] == new[i]),
{
    assert(old.contains(old[i]));
    assert(old.to_multiset().count(old[i]) > 0);
    assert(new.to_multiset().count(old[i]) > 0);
    assert(new.contains(old[i]));
    crate::classify::lemma_index_from(new, old[i], 0);
    let j = partner(old, new, i);
    if j >= new.len() {
        let m = choose|m: int| 0 <= m < new.len() && new[m] == old[i];
        assert(new[m] != old[i]);
    }
    assert(new[j] == old[i]);
    assert(new[i] == old[j]);
    lemma_first_index_of_distinct(new, i);
    if old[i] == new[i] {
        lemma_first_index_of_distinct(new, i);
    }
}

proof fn lemma_pairs_below(old: Seq<NoteView>, new: Seq<NoteView>, i: int)
    requires
        swapped_version(old, new),
        0 <= i <= old.len(),
    ensures
        forall|k: int| 0 <= k < pairs_below(old, new, i).len() ==> {
            let p = #[trigger] pairs_below(old, new, i)[k];
            &&& 0 <= p.0 < i
            &&& p.1 == partner(old, new, p.0)
            &&& p.0 < p.1
        },
        forall|p: int| 0 <= p < i && p < partner(old, new, p) ==> pairs_below(old, new, i).contains((p, partner(old, new, p))),
    decreases i,
{
    if i > 0 {
        lemma_pairs_below(old, new, i - 1);
        let prev = pairs_below(old, new, i - 1);
        let cur = pairs_below(old, new, i);
        assert forall|p: int| 0 <= p < i && p < partner(old, new, p) implies cur.contains((p, partner(old, new, p))) by {
            if p < i - 1 {
                let k = choose|k: int| 0 <= k < prev.len() && prev[k] == (p, partner(old, new, p));
                assert(cur[k] == prev[k]);
            } else {
                assert(cur[cur.len() - 1] == (p, partner(old, new, p)));
            }
        }
        assert forall|k: int| 0 <= k < cur.len() implies {
            let p = #[trigger] cur[k];
            &&& 0 <= p.0 < i
            &&& p.1 == partner(old, new, p.0)
            &&& p.0 < p.1
        } by {
            if k < prev.len() {
                assert(cur[k] == prev[k]);
            }
        }
    }
}

proof fn lemma_reorder_seq_pairs(old: Seq<NoteView>, new: Seq<NoteView>, i: int)
    requires
        swapped_version(old, new),
        0 <= i <= old.len(),
    ensures
        crate::classify::reorder_seq(old, new, i, pairs_below(old, new, i)) == pairs_below(old, new, old.len() as int),
    decreases old.len() - i,
{
    if i < old.len() {
        lemma_partner(old, new, i);
        lemma_pairs_below(old, new, i);
        let acc = pairs_below(old, new, i);
        let s = partner(old, new, i);
        let q = crate::classify::ordered_pair(i, s);
        if i < s {
            if acc.contains(q) {
                let k = choose|k: int| 0 <= k < acc.len() && acc[k] == q;
                assert(acc[k].0 < i);
            }
            assert(pairs_below(old, new, i + 1) == acc.push((i, s)));
        } else if s < i {
            lemma_partner(old, new, s);
            assert(acc.contains((s, partner(old, new, s))));
            assert(q == (s, i));
        }
        lemma_reorder_seq_pairs(old, new, i + 1);
    }
}

proof fn lemma_swaps_place(old: Seq<NoteView>, new: Seq<NoteView>, sub: Seq<(u128, NoteView)>, i: int)
    requires
        swapped_version(old, new),
        sub.len() == old.len(),
        0 <= i <= old.len(),
    ensures
        apply_swaps(sub, pairs_below(old, new, i)).len() == sub.len(),
        forall|q: int| 0 <= q < sub.len() ==> #[trigger] apply_swaps(sub, pairs_below(old, new, i))[q]
            == if q < i || partner(old, new, q) < i { sub[partner(old, new, q)] } else { sub[q] },
    decreases i,
{
    if i > 0 {
        let p = i - 1;
        lemma_swaps_place(old, new, sub, p);
        lemma_partner(old, new, p);
        let prev = pairs_below(old, new, p);
        let before = apply_swaps(sub, prev);
        let s = partner(old, new, p);
        if p < s {
            assert(pairs_below(old, new, i).drop_last() =~= prev);
            let after = apply_swaps(sub, pairs_below(old, new, i));
            assert(after == swapped(before, p, s));
            assert forall|q: int| 0 <= q < sub.len() implies #[trigger] after[q]
                == if q < i || partner(old, new, q) < i { sub[partner(old, new, q)] } else { sub[q] } by {
                lemma_partner(old, new, q);
                if q != p && q != s {
                    assert(after[q] == before[q]);
                    if partner(old, new, q) == p {
                        assert(q == s);
                    }
                }
            }
        } else {
            assert forall|q: int| 0 <= q < sub.len() implies #[trigger] apply_swaps(sub, pairs_below(old, new, i))[q]
                == if q < i || partner(old, new, q) < i { sub[partner(old, new, q)] } else { sub[q] } by {
                lemma_partner(old, new, q);
                assert(apply_swaps(sub, pairs_below(old, new, i))[q] == before[q]);
                if partner(old, new, q) == p {
                    assert(q == s);
                }
            }
        }
    } else {
        assert(pairs_below(old, new, i) =~= Seq::<(int, int)>::empty());
        assert forall|q: int| 0 <= q < sub.len() implies #[trigger] apply_swaps(sub, pairs_below(old, new, i))[q]
            == if q < i || partner(old, new, q) < i { sub[partner(old, new, q)] } else { sub[q] } by {
            lemma_partner(old, new, q);
        }
    }
}

proof fn lemma_swaps_keep_multiset<T>(s: Seq<T>, ps: Seq<(int, int)>)
    requires
        swaps_fit(s.len() as int, ps),
    ensures
        apply_swaps(s, ps).len() == s.len(),
        apply_swaps(s, ps).to_multiset() == s.to_multiset(),
    decreases ps.len(),
{
    broadcast use vstd::multiset::group_multiset_axioms;

    if ps.len() > 0 {
        assert forall|k: int| 0 <= k < ps.drop_last().len() implies 0 <= #[trigger] ps.drop_last()[k].0 < s.len()
            && 0 <= ps.drop_last()[k].1 < s.len() by {
            assert(ps.drop_last()[k] == ps[k]);
        }
        lemma_swaps_keep_multiset(s, ps.drop_last());
        let t = apply_swaps(s, ps.drop_last());
        let (a, b) = ps.last();
        assert(0 <= ps[ps.len() - 1].0 < s.len() && 0 <= ps[ps.len() - 1].1 < s.len());
        let u = t.update(a, t[b]);
        assert(u.to_multiset() =~= t.to_multiset().insert(t[b]).remove(t[a]));
        if a == b {
            assert(swapped(t, a, b) =~= t);
        } else {
            assert(u[b] == t[b]);
            assert(u.update(b, t[a]).to_multiset() =~= u.to_multiset().insert(t[a]).remove(t[b]));
            assert(swapped(t, a, b).to_multiset() =~= t.to_multiset());
        }
    }
}

pub open spec fn ids_of(s: Seq<(u128, NoteView)>) -> Seq<u128> {
    s.map_values(|e: (u128, NoteView)| e.0)
}

pub open spec fn notes_of(s: Seq<(u128, NoteView)>) -> Seq<NoteView> {
    s.map_values(|e: (u128, NoteView)| e.1)
}

proof fn lemma_ids_of_swaps(s: Seq<(u128, NoteView)>, ps: Seq<(int, int)>)
    requires
        swaps_fit(s.len() as int, ps),
    ensures
        ids_of(apply_swaps(s, ps)) == apply_swaps(ids_of(s), ps),
    decreases ps.len(),
{
    if ps.len() > 0 {
        assert forall|k: int| 0 <= k < ps.drop_last().len() implies 0 <= #[trigger] ps.drop_last()[k].0 < s.len()
            && 0 <= ps.drop_last()[k].1 < s.len() by {
            assert(ps.drop_last()[k] == ps[k]);
        }
        lemma_ids_of_swaps(s, ps.drop_last());
        lemma_swaps_keep_multiset(s, ps.drop_last());
        assert(0 <= ps[ps.len() - 1].0 < s.len() && 0 <= ps[ps.len() - 1].1 < s.len());
        let t = apply_swaps(s, ps.drop_last());
        assert(ids_of(swapped(t, ps.last().0, ps.last().1)) =~= swapped(ids_of(t), ps.last().0, ps.last().1));
    }
}

/// Where `new` exchanges disjoint pairs of the distinct notes of `old`, the
/// classifier finds reorders, and applying them to a list that holds the old
/// notes puts its notes in the new order and keeps its identifiers, as a
/// multiset.
pub proof fn lemma_reorders_place_notes(old: Seq<NoteView>, new: Seq<NoteView>, sub: Seq<(u128, NoteView)>)
    requires
        swapped_version(old, new),
        old != new,
        notes_of(sub) == old,
    ensures
        crate::classify::classify(old, new) == Some(TransformsView::Reorders(
            crate::classify::reorder_seq(old, new, 0, Seq::empty()),
        )),
        notes_of(apply_swaps(sub, crate::classify::reorder_seq(old, new, 0, Seq::empty()))) == new,
        ids_of(apply_swaps(sub, crate::classify::reorder_seq(old, new, 0, Seq::empty()))).to_multiset()
            == ids_of(sub).to_multiset(),
{
    let n = old.len() as int;
    assert(sub.len() == old.len());
    lemma_reorder_seq_pairs(old, new, 0);
    assert(pairs_below(old, new, 0) =~= Seq::<(int, int)>::empty());
    let ps = pairs_below(old, new, n);
    lemma_swaps_place(old, new, sub, n);
    lemma_pairs_below(old, new, n);
    let out = apply_swaps(sub, ps);
    assert forall|q: int| 0 <= q < n implies #[trigger] notes_of(out)[q] == new[q] by {
        lemma_partner(old, new, q);
        assert(out[q] == sub[partner(old, new, q)]);
        assert(notes_of(sub)[partner(old, new, q)] == old[partner(old, new, q)]);
    }
    assert(notes_of(out) =~= new);
    assert forall|k: int| 0 <= k < ps.len() implies 0 <= #[trigger] ps[k].0 < sub.len() && 0 <= ps[k].1 < sub.len() by {
        lemma_partner(old, new, ps[k].0);
    }
    lemma_ids_of_swaps(sub, ps);
    lemma_swaps_keep_multiset(ids_of(sub), ps);
}

} // verus!

verus! {

/// `s[i..]` without the entries at the positions in `d`.
pub open spec fn keep_from<T>(s: Seq<T>, d: Set<int>, i: int) -> Seq<T>
    decreases s.len() - i,
{
    if i < 0 || i >= s.len() {
        Seq::empty()
    } else if d.contains(i) {
        keep_from(s, d, i + 1)
    } else {
        seq![s[i]] + keep_from(s, d, i + 1)
    }
}

/// `new[j..]` is `old[i..]` with some entries left out.
pub open spec fn embeds(old: Seq<NoteView>, new: Seq<NoteView>, i: int, j: int) -> bool
    decreases old.len() - i,
{
    if j >= new.len() {
        true
    } else if i < 0 || i >= old.len() {
        false
    } else {
        (old[i] == new[j] && embeds(old, new, i + 1, j + 1)) || embeds(old, new, i + 1, j)
    }
}

proof fn lemma_keep_from_last<T>(s: Seq<T>, d: Set<int>, i: int)
    requires
        s.len() > 0,
        0 <= i <= s.len() - 1,
    ensures
        keep_from(s, d, i) == keep_from(s.drop_last(), d, i)
            + (if d.contains(s.len() - 1) { Seq::<T>::empty() } else { seq![s.last()] }),
    decreases s.len() - i,
{
    let t = s.drop_last();
    if i < s.len() - 1 {
        lemma_keep_from_last(s, d, i + 1);
        assert(s[i] == t[i]);
        if !d.contains(i) {
            let tail = if d.contains(s.len() - 1) { Seq::<T>::empty() } else { seq![s.last()] };
            assert(seq![s[i]] + (keep_from(t, d, i + 1) + tail) =~= (seq![t[i]] + keep_from(t, d, i + 1)) + tail);
        }
    } else {
        assert(keep_from(t, d, i) =~= Seq::<T>::empty());
        assert(keep_from(s, d, i + 1) =~= Seq::<T>::empty());
        if !d.contains(i) {
            assert(seq![s[i]] + Seq::<T>::empty() =~= seq![s[i]]);
        }
    }
}

proof fn lemma_drop_is_keep<T>(s: Seq<T>, d: Set<int>)
    ensures
        drop_positions(s, d) == keep_from(s, d, 0),
    decreases s.len(),
{
    if s.len() > 0 {
        lemma_drop_is_keep(s.drop_last(), d);
        lemma_keep_from_last(s, d, 0);
        if !d.contains(s.len() - 1) {
            assert(drop_positions(s.drop_last(), d).push(s.last())
                =~= keep_from(s.drop_last(), d, 0) + seq![s.last()]);
        } else {
            assert(keep_from(s.drop_last(), d, 0) + Seq::<T>::empty() =~= keep_from(s.drop_last(), d, 0));
        }
    } else {
        assert(keep_from(s, d, 0) =~= Seq::<T>::empty());
    }
}

proof fn lemma_keep_from_agree<T>(s: Seq<T>, d1: Set<int>, d2: Set<int>, i: int)
    requires
        0 <= i,
        forall|x: int| i <= x ==> (d1.contains(x) == d2.contains(x)),
    ensures
        keep_from(s, d1, i) == keep_from(s, d2, i),
    decreases s.len() - i,
{
    if i < s.len() {
        lemma_keep_from_agree(s, d1, d2, i + 1);
    }
}

proof fn lemma_embeds_shorter(old: Seq<NoteView>, new: Seq<NoteView>, i: int, j: int)
    requires
        embeds(old, new, i, j),
        0 <= j,
    ensures
        embeds(old, new, i, j + 1),
    decreases old.len() - i,
{
    if j + 1 < new.len() && j < new.len() && 0 <= i < old.len() {
        if embeds(old, new, i + 1, j) {
            lemma_embeds_shorter(old, new, i + 1, j);
        }
    }
}

proof fn lemma_greedy_keeps_new(old: Seq<NoteView>, new: Seq<NoteView>, i: int, j: int)
    requires
        0 <= i,
        0 <= j <= new.len(),
        embeds(old, new, i, j),
    ensures
        keep_from(old, crate::classify::deletions_from(old, new, i, j).to_set(), i) == new.skip(j),
    decreases old.len() - i,
{
    let d = crate::classify::deletions_from(old, new, i, j);
    if i >= old.len() {
        assert(new.skip(j) =~= Seq::<NoteView>::empty());
    } else if j < new.len() && old[i] == new[j] {
        if !embeds(old, new, i + 1, j + 1) {
            lemma_embeds_shorter(old, new, i + 1, j);
        }
        lemma_greedy_keeps_new(old, new, i + 1, j + 1);
        lemma_deletions_sorted(old, new, i + 1, j + 1);
        assert(d == crate::classify::deletions_from(old, new, i + 1, j + 1));
        assert(!d.to_set().contains(i)) by {
            if d.contains(i) {
                let k = choose|k: int| 0 <= k < d.len() && d[k] == i;
                assert(i + 1 <= d[k]);
            }
        }
        assert(new.skip(j) =~= seq![new[j]] + new.skip(j + 1));
    } else {
        lemma_greedy_keeps_new(old, new, i + 1, j);
        let rest = crate::classify::deletions_from(old, new, i + 1, j);
        assert(d == seq![i] + rest);
        assert(d.to_set().contains(i)) by {
            assert(d[0] == i);
        }
        assert forall|x: int| i + 1 <= x implies (d.to_set().contains(x) == rest.to_set().contains(x)) by {
            if d.contains(x) {
                let k = choose|k: int| 0 <= k < d.len() && d[k] == x;
                assert(k > 0);
                assert(rest[k - 1] == x);
            }
            if rest.contains(x) {
                let k = choose|k: int| 0 <= k < rest.len() && rest[k] == x;
                assert(d[k + 1] == x);
            }
        }
        lemma_keep_from_agree(old, d.to_set(), rest.to_set(), i + 1);
    }
}

proof fn lemma_notes_of_drop(s: Seq<(u128, NoteView)>, d: Set<int>)
    ensures
        notes_of(drop_positions(s, d)) == drop_positions(notes_of(s), d),
    decreases s.len(),
{
    if s.len() > 0 {
        lemma_notes_of_drop(s.drop_last(), d);
        assert(notes_of(s.drop_last()) =~= notes_of(s).drop_last());
        if !d.contains(s.len() - 1) {
            assert(notes_of(drop_positions(s.drop_last(), d).push(s.last()))
                =~= notes_of(drop_positions(s.drop_last(), d)).push(s.last().1));
        }
    }
}

/// Where `new` is `old` with some notes left out, the classifier finds
/// deletions, and applying them to a list that holds the old notes leaves
/// exactly the new notes.
pub proof fn lemma_deletions_give_new(old: Seq<NoteView>, new: Seq<NoteView>, sub: Seq<(u128, NoteView)>)
    requires
        notes_of(sub) == old,
        new.len() < old.len(),
        embeds(old, new, 0, 0),
    ensures
        crate::classify::classify(old, new) == Some(TransformsView::Deletions(
            crate::classify::deletions_from(old, new, 0, 0).reverse(),
        )),
        notes_of(apply_deletions(sub, crate::classify::deletions_from(old, new, 0, 0).reverse())) == new,
{
    let d = crate::classify::deletions_from(old, new, 0, 0);
    assert(old != new);
    assert(sub.len() == old.len());
    lemma_classified_deletions_commute(sub, old, new);
    lemma_notes_of_drop(sub, d.to_set());
    lemma_drop_is_keep(old, d.to_set());
    lemma_greedy_keeps_new(old, new, 0, 0);
    assert(new.skip(0) =~= new);
}

} // verus!

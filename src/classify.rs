//! The change classifier: the single class of change between two versions of
//! a note list.
use vstd::prelude::*;
use vstd::multiset::Multiset;
use crate::error::DeckError;
use crate::note::{Note, NoteView, notes_view};

verus! {

broadcast use vstd::seq_lib::group_to_multiset_ensures, vstd::multiset::group_multiset_axioms;

/// The classified difference between two note sequences; never a mix of kinds.
#[derive(Debug)]
pub enum Transforms {
    /// Positions in the new list, ascending, with the note inserted there.
    Additions(Vec<(usize, Note)>),
    /// Positions in the old list, descending, so that removing them one by one
    /// keeps the remaining positions valid.
    Deletions(Vec<usize>),
    /// Positions whose note was replaced, with the new note.
    Modifications(Vec<(usize, Note)>),
    /// Pairs `(a, b)` with `a <= b` of positions to swap; no pair repeats.
    Reorders(Vec<(usize, usize)>),
}

pub enum TransformsView {
    Additions(Seq<(int, NoteView)>),
    Deletions(Seq<int>),
    Modifications(Seq<(int, NoteView)>),
    Reorders(Seq<(int, int)>),
}

pub open spec fn placed_view(v: Seq<(usize, Note)>) -> Seq<(int, NoteView)> {
    v.map_values(|p: (usize, Note)| (p.0 as int, p.1@))
}

pub open spec fn positions_view(v: Seq<usize>) -> Seq<int> {
    v.map_values(|p: usize| p as int)
}

pub open spec fn pair_seq(v: Seq<(usize, usize)>) -> Seq<(int, int)> {
    v.map_values(|p: (usize, usize)| (p.0 as int, p.1 as int))
}

pub open spec fn pairs_view(v: Seq<(usize, usize)>) -> Set<(int, int)> {
    Set::new(|p: (int, int)| exists|k: int| 0 <= k < v.len() && p == (#[trigger] v[k].0 as int, v[k].1 as int))
}

impl View for Transforms {
    type V = TransformsView;

    open spec fn view(&self) -> TransformsView {
        match self {
            Transforms::Additions(v) => TransformsView::Additions(placed_view(v@)),
            Transforms::Deletions(v) => TransformsView::Deletions(positions_view(v@)),
            Transforms::Modifications(v) => TransformsView::Modifications(placed_view(v@)),
            Transforms::Reorders(v) => TransformsView::Reorders(pair_seq(v@)),
        }
    }
}

pub open spec fn option_transforms_view(o: Option<Transforms>) -> Option<TransformsView> {
    match o {
        Some(t) => Some(t@),
        None => None,
    }
}

/// Walk both lists together; a note of `new` that does not match the next
/// unmatched note of `old` is an addition at its position in `new`.
pub open spec fn additions_from(old: Seq<NoteView>, new: Seq<NoteView>, i: int, j: int) -> Seq<(int, NoteView)>
    decreases new.len() - j,
{
    if j < 0 || j >= new.len() {
        Seq::empty()
    } else if 0 <= i < old.len() && old[i] == new[j] {
        additions_from(old, new, i + 1, j + 1)
    } else {
        seq![(j, new[j])] + additions_from(old, new, i, j + 1)
    }
}

/// Mirror image of `additions_from`: positions of `old`, ascending.
pub open spec fn deletions_from(old: Seq<NoteView>, new: Seq<NoteView>, i: int, j: int) -> Seq<int>
    decreases old.len() - i,
{
    if i < 0 || i >= old.len() {
        Seq::empty()
    } else if 0 <= j < new.len() && old[i] == new[j] {
        deletions_from(old, new, i + 1, j + 1)
    } else {
        seq![i] + deletions_from(old, new, i + 1, j)
    }
}

/// Positions from `i` on where two lists of one length differ, with the new note.
pub open spec fn modifications_from(old: Seq<NoteView>, new: Seq<NoteView>, i: int) -> Seq<(int, NoteView)>
    decreases new.len() - i,
{
    if i < 0 || i >= new.len() || i >= old.len() {
        Seq::empty()
    } else if old[i] != new[i] {
        seq![(i, new[i])] + modifications_from(old, new, i + 1)
    } else {
        modifications_from(old, new, i + 1)
    }
}

/// The first position from `k` on that holds `x`, or `s.len()` if none does.
pub open spec fn index_from(s: Seq<NoteView>, x: NoteView, k: int) -> int
    decreases s.len() - k,
{
    if k < 0 || k >= s.len() {
        s.len() as int
    } else if s[k] == x {
        k
    } else {
        index_from(s, x, k + 1)
    }
}

pub open spec fn ordered_pair(a: int, b: int) -> (int, int) {
    if a < b { (a, b) } else { (b, a) }
}

/// `p` pairs a position `i` where the lists differ with the first position of
/// `old[i]` in `new`.
pub open spec fn is_reorder_pair(old: Seq<NoteView>, new: Seq<NoteView>, p: (int, int)) -> bool {
    exists|i: int|
        0 <= i < old.len() && i < new.len() && old[i] != new[i]
            && index_from(new, old[i], 0) < new.len()
            && p == ordered_pair(i, #[trigger] index_from(new, old[i], 0))
}

/// `is_reorder_pair` with the position `i` taken below `n`.
pub open spec fn reorder_pair_below(old: Seq<NoteView>, new: Seq<NoteView>, n: int, p: (int, int)) -> bool {
    exists|i: int|
        0 <= i < n && old[i] != new[i]
            && index_from(new, old[i], 0) < new.len()
            && p == ordered_pair(i, #[trigger] index_from(new, old[i], 0))
}

/// The reorder pairs in the order they are found: for each position `i` from
/// the first on, the pair of `i` with the first position of `old[i]` in `new`,
/// unless it is already listed.
pub open spec fn reorder_seq(old: Seq<NoteView>, new: Seq<NoteView>, i: int, acc: Seq<(int, int)>) -> Seq<(int, int)>
    decreases old.len() - i,
{
    if i < 0 || i >= old.len() || i >= new.len() {
        acc
    } else {
        let p = ordered_pair(i, index_from(new, old[i], 0));
        if old[i] != new[i] && index_from(new, old[i], 0) < new.len() && !acc.contains(p) {
            reorder_seq(old, new, i + 1, acc.push(p))
        } else {
            reorder_seq(old, new, i + 1, acc)
        }
    }
}

pub open spec fn reorder_pairs(old: Seq<NoteView>, new: Seq<NoteView>) -> Set<(int, int)> {
    Set::new(|p: (int, int)| is_reorder_pair(old, new, p))
}

/// The change class between two versions of a note list.
pub open spec fn classify(old: Seq<NoteView>, new: Seq<NoteView>) -> Option<TransformsView> {
    if old == new {
        None
    } else if new.len() > old.len() {
        Some(TransformsView::Additions(additions_from(old, new, 0, 0)))
    } else if new.len() < old.len() {
        Some(TransformsView::Deletions(deletions_from(old, new, 0, 0).reverse()))
    } else if old.to_multiset() == new.to_multiset() {
        Some(TransformsView::Reorders(reorder_seq(old, new, 0, Seq::empty())))
    } else {
        Some(TransformsView::Modifications(modifications_from(old, new, 0)))
    }
}

/// Whether two note lists of one length hold the same notes, counted with
/// multiplicity.
pub fn same_notes(old: &Vec<Note>, new: &Vec<Note>) -> (r: bool)
    requires
        old.len() == new.len(),
    ensures
        r == (notes_view(old@).to_multiset() == notes_view(new@).to_multiset()),
{
    let ghost ov = notes_view(old@);
    let ghost nv = notes_view(new@);
    let mut rem: Vec<Note> = Vec::new();
    let mut i: usize = 0;
    while i < old.len()
        invariant
            i <= old.len(),
            notes_view(rem@) =~= ov.take(i as int),
            ov == notes_view(old@),
        decreases old.len() - i,
    {
        rem.push(old[i].clone());
        i = i + 1;
        proof {
            assert(ov.take(i as int) =~= ov.take(i - 1).push(ov[i - 1]));
        }
    }
    assert(ov.take(old.len() as int) =~= ov);
    let mut j: usize = 0;
    while j < new.len()
        invariant
            j <= new.len(),
            ov == notes_view(old@),
            nv == notes_view(new@),
            ov.len() == nv.len(),
            notes_view(rem@).to_multiset().add(nv.take(j as int).to_multiset()) =~= ov.to_multiset(),
        decreases new.len() - j,
    {
        let k = position_of(&rem, &new[j]);
        proof {
            lemma_index_from(notes_view(rem@), nv[j as int], 0);
        }
        let found = k < rem.len();
        if !found {
            proof {
                let x = nv[j as int];
                let rv = notes_view(rem@);
                assert(!rv.contains(x)) by {
                    if rv.contains(x) {
                        let m = choose|m: int| 0 <= m < rv.len() && rv[m] == x;
                        assert(rv[m] != x);
                    }
                }
                assert(rv.to_multiset().count(x) == 0);
                let pre = nv.take(j as int);
                let suf = nv.skip(j as int);
                assert(nv =~= pre + suf);
                vstd::seq_lib::lemma_multiset_commutative(pre, suf);
                assert(suf.contains(x)) by {
                    assert(suf[0] == x);
                }
                assert(suf.to_multiset().count(x) > 0);
                assert(nv.to_multiset().count(x) > ov.to_multiset().count(x));
            }
            return false;
        }
        proof {
            let x = nv[j as int];
            let rv = notes_view(rem@);
            assert(rv[k as int] == x);
            assert(notes_view(rem@.remove(k as int)) =~= rv.remove(k as int));
            assert(nv.take(j + 1) =~= nv.take(j as int).push(x));
        }
        rem.remove(k);
        j = j + 1;
    }
    assert(nv.take(new.len() as int) =~= nv);
    assert(ov.to_multiset().len() == ov.len());
    assert(nv.to_multiset().len() == nv.len());
    assert(notes_view(rem@).to_multiset().add(nv.to_multiset()).len()
        == notes_view(rem@).to_multiset().len() + nv.to_multiset().len());
    assert(notes_view(rem@).to_multiset().len() == 0);
    assert(notes_view(rem@).len() == 0);
    assert(notes_view(rem@) =~= Seq::<NoteView>::empty());
    assert(notes_view(rem@).to_multiset() =~= Multiset::empty());
    assert(Multiset::<NoteView>::empty().add(nv.to_multiset()) =~= nv.to_multiset());
    assert(ov.to_multiset() =~= nv.to_multiset());
    true
}

/// Determines the single kind of change between two versions of a note list.
/// A revision is expected to hold one kind of change; where it mixes kinds,
/// the class follows the lengths and multisets as `classify` states.
pub fn determine_changes(old: &Vec<Note>, new: &Vec<Note>) -> (r: Result<Option<Transforms>, DeckError>)
    ensures
        r is Ok,
        option_transforms_view(r->Ok_0) == classify(notes_view(old@), notes_view(new@)),
        r->Ok_0 matches Some(Transforms::Reorders(v))
            ==> pairs_view(v@) == reorder_pairs(notes_view(old@), notes_view(new@)),
{
    let ghost ov = notes_view(old@);
    let ghost nv = notes_view(new@);
    let mut equal = old.len() == new.len();
    if equal {
        let mut i: usize = 0;
        while i < old.len() && equal
            invariant
                old.len() == new.len(),
                i <= old.len(),
                ov == notes_view(old@),
                nv == notes_view(new@),
                equal ==> forall|m: int| 0 <= m < i ==> ov[m] == nv[m],
                !equal ==> ov != nv,
            decreases old.len() - i,
        {
            if old[i] != new[i] {
                equal = false;
                assert(ov[i as int] != nv[i as int]);
            }
            i = i + 1;
        }
        if equal {
            assert(ov =~= nv);
            return Ok(None);
        }
    }
    assert(ov.len() == old.len() && nv.len() == new.len());
    assert(ov != nv);
    if new.len() > old.len() {
        let mut additions: Vec<(usize, Note)> = Vec::new();
        let mut i: usize = 0;
        let mut j: usize = 0;
        while j < new.len()
            invariant
                i <= j <= new.len(),
                i <= old.len(),
                ov == notes_view(old@),
                nv == notes_view(new@),
                placed_view(additions@) + additions_from(ov, nv, i as int, j as int)
                    == additions_from(ov, nv, 0, 0),
            decreases new.len() - j,
        {
            if i < old.len() && old[i] == new[j] {
                i = i + 1;
                j = j + 1;
            } else {
                let ghost before = placed_view(additions@);
                additions.push((j, new[j].clone()));
                proof {
                    assert(placed_view(additions@) =~= before.push((j as int, nv[j as int])));
                    assert(additions_from(ov, nv, i as int, j as int)
                        == seq![(j as int, nv[j as int])] + additions_from(ov, nv, i as int, j + 1));
                    assert(before + (seq![(j as int, nv[j as int])] + additions_from(ov, nv, i as int, j + 1))
                        =~= before.push((j as int, nv[j as int])) + additions_from(ov, nv, i as int, j + 1));
                }
                j = j + 1;
            }
        }
        assert(additions_from(ov, nv, i as int, j as int) =~= Seq::empty());
        assert(placed_view(additions@) =~= additions_from(ov, nv, 0, 0));
        return Ok(Some(Transforms::Additions(additions)));
    }
    if new.len() < old.len() {
        let mut deletions: Vec<usize> = Vec::new();
        let mut i: usize = 0;
        let mut j: usize = 0;
        while i < old.len()
            invariant
                j <= i <= old.len(),
                j <= new.len(),
                ov == notes_view(old@),
                nv == notes_view(new@),
                positions_view(deletions@) + deletions_from(ov, nv, i as int, j as int)
                    == deletions_from(ov, nv, 0, 0),
            decreases old.len() - i,
        {
            if j < new.len() && old[i] == new[j] {
                i = i + 1;
                j = j + 1;
            } else {
                let ghost before = positions_view(deletions@);
                deletions.push(i);
                proof {
                    assert(positions_view(deletions@) =~= before.push(i as int));
                    assert(before + (seq![i as int] + deletions_from(ov, nv, i + 1, j as int))
                        =~= before.push(i as int) + deletions_from(ov, nv, i + 1, j as int));
                }
                i = i + 1;
            }
        }
        assert(deletions_from(ov, nv, i as int, j as int) =~= Seq::empty());
        assert(positions_view(deletions@) =~= deletions_from(ov, nv, 0, 0));
        let reversed = reverse_positions(&deletions);
        return Ok(Some(Transforms::Deletions(reversed)));
    }
    if same_notes(old, new) {
        let mut pairs: Vec<(usize, usize)> = Vec::new();
        assert(pair_seq(pairs@) =~= Seq::empty());
        let mut i: usize = 0;
        while i < old.len()
            invariant
                old.len() == new.len(),
                i <= old.len(),
                ov == notes_view(old@),
                nv == notes_view(new@),
                reorder_seq(ov, nv, i as int, pair_seq(pairs@)) == reorder_seq(ov, nv, 0, Seq::empty()),
                forall|k: int| 0 <= k < pairs@.len() ==> #[trigger] pairs@[k].0 <= pairs@[k].1,
                forall|p: (int, int)|
                    #[trigger] pairs_view(pairs@).contains(p) == reorder_pair_below(ov, nv, i as int, p),
            decreases old.len() - i,
        {
            let ghost before = pairs@;
            let ghost iv = i as int;
            let ghost q = ordered_pair(iv, index_from(nv, ov[iv], 0));
            let ghost cond = ov[iv] != nv[iv] && index_from(nv, ov[iv], 0) < nv.len();
            assert(ov[iv] == old@[iv]@);
            if old[i] != new[i] {
                let pos = position_of(new, &old[i]);
                if pos < new.len() {
                    let p = if i < pos { (i, pos) } else { (pos, i) };
                    if !contains_pair(&pairs, p) {
                        proof {
                            if pair_seq(pairs@).contains(q) {
                                let m = choose|m: int| 0 <= m < pair_seq(pairs@).len() && pair_seq(pairs@)[m] == q;
                                assert(pairs@[m] == p);
                            }
                        }
                        pairs.push(p);
                        assert(pair_seq(pairs@) =~= pair_seq(before).push(q));
                        let ghost k = pairs@.len() - 1;
                        assert(pairs@[k] == p);
                        assert(q == (pairs@[k].0 as int, pairs@[k].1 as int));
                    } else {
                        let ghost k = choose|k: int| 0 <= k < pairs@.len() && pairs@[k] == p;
                        assert(q == (pairs@[k].0 as int, pairs@[k].1 as int));
                        assert(pair_seq(pairs@)[k] == q);
                        assert(pairs_view(pairs@).contains(q));
                    }
                    assert(pairs_view(pairs@).contains(q));
                }
            }
            proof {
                assert(cond ==> pairs_view(pairs@).contains(q));
                assert forall|p: (int, int)|
                    #[trigger] pairs_view(pairs@).contains(p) == reorder_pair_below(ov, nv, iv + 1, p) by {
                    if reorder_pair_below(ov, nv, iv + 1, p) {
                        let m = choose|m: int|
                            0 <= m < iv + 1 && ov[m] != nv[m]
                                && index_from(nv, ov[m], 0) < nv.len()
                                && p == ordered_pair(m, #[trigger] index_from(nv, ov[m], 0));
                        if m < iv {
                            assert(reorder_pair_below(ov, nv, iv, p));
                            assert(pairs_view(before).contains(p));
                            let k = choose|k: int| 0 <= k < before.len() && p == (#[trigger] before[k].0 as int, before[k].1 as int);
                            assert(pairs@[k] == before[k]);
                        }
                    }
                    if pairs_view(pairs@).contains(p) {
                        let k = choose|k: int| 0 <= k < pairs@.len() && p == (#[trigger] pairs@[k].0 as int, pairs@[k].1 as int);
                        if k < before.len() {
                            assert(pairs@[k] == before[k]);
                            assert(pairs_view(before).contains(p));
                            assert(reorder_pair_below(ov, nv, iv, p));
                            let m = choose|m: int|
                                0 <= m < iv && ov[m] != nv[m]
                                    && index_from(nv, ov[m], 0) < nv.len()
                                    && p == ordered_pair(m, #[trigger] index_from(nv, ov[m], 0));
                            assert(reorder_pair_below(ov, nv, iv + 1, p));
                        } else {
                            assert(p == q);
                            assert(reorder_pair_below(ov, nv, iv + 1, p));
                        }
                    }
                }
            }
            i = i + 1;
        }
        assert(pair_seq(pairs@) == reorder_seq(ov, nv, 0, Seq::empty()));
        proof {
            assert forall|p: (int, int)| pairs_view(pairs@).contains(p) == reorder_pairs(ov, nv).contains(p) by {
                if reorder_pair_below(ov, nv, ov.len() as int, p) {
                    let m = choose|m: int|
                        0 <= m < ov.len() && ov[m] != nv[m]
                            && index_from(nv, ov[m], 0) < nv.len()
                            && p == ordered_pair(m, #[trigger] index_from(nv, ov[m], 0));
                    assert(is_reorder_pair(ov, nv, p));
                }
                if is_reorder_pair(ov, nv, p) {
                    let m = choose|m: int|
                        0 <= m < ov.len() && m < nv.len() && ov[m] != nv[m]
                            && index_from(nv, ov[m], 0) < nv.len()
                            && p == ordered_pair(m, #[trigger] index_from(nv, ov[m], 0));
                    assert(reorder_pair_below(ov, nv, ov.len() as int, p));
                }
            }
            assert(pairs_view(pairs@) =~= reorder_pairs(ov, nv));
        }
        return Ok(Some(Transforms::Reorders(pairs)));
    }
    let mut modifications: Vec<(usize, Note)> = Vec::new();
    let mut i: usize = 0;
    while i < old.len()
        invariant
            old.len() == new.len(),
            i <= old.len(),
            ov == notes_view(old@),
            nv == notes_view(new@),
            placed_view(modifications@) + modifications_from(ov, nv, i as int)
                == modifications_from(ov, nv, 0),
        decreases old.len() - i,
    {
        if old[i] != new[i] {
            let ghost before = placed_view(modifications@);
            modifications.push((i, new[i].clone()));
            proof {
                assert(placed_view(modifications@) =~= before.push((i as int, nv[i as int])));
                assert(before + (seq![(i as int, nv[i as int])] + modifications_from(ov, nv, i + 1))
                    =~= before.push((i as int, nv[i as int])) + modifications_from(ov, nv, i + 1));
            }
        }
        i = i + 1;
    }
    assert(modifications_from(ov, nv, i as int) =~= Seq::empty());
    assert(placed_view(modifications@) =~= modifications_from(ov, nv, 0));
    Ok(Some(Transforms::Modifications(modifications)))
}

pub proof fn lemma_index_from(s: Seq<NoteView>, x: NoteView, k: int)
    requires
        0 <= k <= s.len(),
    ensures
        k <= index_from(s, x, k) <= s.len(),
        index_from(s, x, k) < s.len() ==> s[index_from(s, x, k)] == x,
        forall|m: int| k <= m < index_from(s, x, k) ==> s[m] != x,
    decreases s.len() - k,
{
    if k < s.len() && s[k] != x {
        lemma_index_from(s, x, k + 1);
    }
}

/// The first position of `x` in `s`, or `s.len()` if it is absent.
pub fn position_of(s: &Vec<Note>, x: &Note) -> (r: usize)
    ensures
        r as int == index_from(notes_view(s@), x@, 0),
{
    let ghost sv = notes_view(s@);
    let mut k: usize = 0;
    while k < s.len()
        invariant
            k <= s.len(),
            sv == notes_view(s@),
            index_from(sv, x@, 0) == index_from(sv, x@, k as int),
        decreases s.len() - k,
    {
        if s[k] == *x {
            return k;
        }
        k = k + 1;
    }
    k
}

fn contains_pair(v: &Vec<(usize, usize)>, p: (usize, usize)) -> (r: bool)
    ensures
        r == v@.contains(p),
{
    let mut k: usize = 0;
    while k < v.len()
        invariant
            k <= v.len(),
            forall|m: int| 0 <= m < k ==> v@[m] != p,
        decreases v.len() - k,
    {
        if v[k].0 == p.0 && v[k].1 == p.1 {
            return true;
        }
        k = k + 1;
    }
    false
}

fn reverse_positions(v: &Vec<usize>) -> (r: Vec<usize>)
    ensures
        positions_view(r@) == positions_view(v@).reverse(),
{
    let mut r: Vec<usize> = Vec::new();
    let mut k: usize = v.len();
    while k > 0
        invariant
            k <= v.len(),
            r@.len() == v.len() - k,
            forall|m: int| 0 <= m < r@.len() ==> r@[m] == v@[v.len() - 1 - m],
        decreases k,
    {
        k = k - 1;
        r.push(v[k]);
    }
    assert(positions_view(r@) =~= positions_view(v@).reverse());
    r
}

} // verus!

verus! {

/// Every pair of lists falls in exactly one class: no change when they are
/// equal, additions when the new one is longer, deletions when it is shorter,
/// and, at one length, reorders when they hold the same notes and
/// modifications when they do not.
pub proof fn lemma_classes_partition(old: Seq<NoteView>, new: Seq<NoteView>)
    ensures
        classify(old, new) is None <==> old == new,
        classify(old, new) matches Some(TransformsView::Additions(_)) <==> (old != new && new.len() > old.len()),
        classify(old, new) matches Some(TransformsView::Deletions(_)) <==> (old != new && new.len() < old.len()),
        classify(old, new) matches Some(TransformsView::Reorders(_)) <==> (old != new && new.len() == old.len()
            && old.to_multiset() == new.to_multiset()),
        classify(old, new) matches Some(TransformsView::Modifications(_)) <==> (old != new && new.len() == old.len()
            && old.to_multiset() != new.to_multiset()),
{
}

} // verus!

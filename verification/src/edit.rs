//! The edit model: a three-variant tagged value describing one step of an
//! edit script, and spec functions that say what a whole script does to the
//! two sequences it was computed from.

use vstd::prelude::*;

verus! {

/// One step of an edit script. `Copy` marks an element present in both
/// sequences at this alignment, `Insert` one present only in the target
/// sequence, `Remove` one present only in the source sequence.
#[derive(Clone, Copy, Debug, PartialEq)]
pub enum Edit<T> {
    Copy(T),
    Insert(T),
    Remove(T),
}

impl<T> Edit<T> {
    /// The element carried by the edit, whichever variant it is.
    pub open spec fn value(self) -> T {
        match self {
            Edit::Copy(v) => v,
            Edit::Insert(v) => v,
            Edit::Remove(v) => v,
        }
    }

    pub open spec fn is_copy(self) -> bool {
        self is Copy
    }

    pub open spec fn is_insert(self) -> bool {
        self is Insert
    }

    pub open spec fn is_remove(self) -> bool {
        self is Remove
    }
}

/// What one edit contributes to the target sequence: `Copy` and `Insert`
/// keep their value, `Remove` contributes nothing.
pub open spec fn target_part<T>(e: Edit<T>) -> Seq<T> {
    match e {
        Edit::Copy(v) => seq![v],
        Edit::Insert(v) => seq![v],
        Edit::Remove(_) => Seq::empty(),
    }
}

/// What one edit contributes to the source sequence: `Copy` and `Remove`
/// keep their value, `Insert` contributes nothing.
pub open spec fn source_part<T>(e: Edit<T>) -> Seq<T> {
    match e {
        Edit::Copy(v) => seq![v],
        Edit::Insert(_) => Seq::empty(),
        Edit::Remove(v) => seq![v],
    }
}

/// The sequence rebuilt by applying the script while keeping `Copy` and
/// `Insert` values and dropping `Remove`: the target of the script.
pub open spec fn target_values<T>(s: Seq<Edit<T>>) -> Seq<T>
    decreases s.len(),
{
    if s.len() == 0 {
        Seq::empty()
    } else {
        target_values(s.drop_last()) + target_part(s.last())
    }
}

/// The sequence rebuilt by applying the script while keeping `Copy` and
/// `Remove` values and dropping `Insert`: the source of the script.
pub open spec fn source_values<T>(s: Seq<Edit<T>>) -> Seq<T>
    decreases s.len(),
{
    if s.len() == 0 {
        Seq::empty()
    } else {
        source_values(s.drop_last()) + source_part(s.last())
    }
}

/// How many edits of the script are `Copy`.
pub open spec fn copy_count<T>(s: Seq<Edit<T>>) -> nat
    decreases s.len(),
{
    if s.len() == 0 {
        0
    } else {
        copy_count(s.drop_last()) + if s.last().is_copy() { 1nat } else { 0nat }
    }
}

/// How many edits of the script are `Insert`.
pub open spec fn insert_count<T>(s: Seq<Edit<T>>) -> nat
    decreases s.len(),
{
    if s.len() == 0 {
        0
    } else {
        insert_count(s.drop_last()) + if s.last().is_insert() { 1nat } else { 0nat }
    }
}

/// How many edits of the script are `Remove`.
pub open spec fn remove_count<T>(s: Seq<Edit<T>>) -> nat
    decreases s.len(),
{
    if s.len() == 0 {
        0
    } else {
        remove_count(s.drop_last()) + if s.last().is_remove() { 1nat } else { 0nat }
    }
}

/// Every edit of the script is a `Copy`.
pub open spec fn all_copies<T>(s: Seq<Edit<T>>) -> bool {
    forall|k: int| 0 <= k < s.len() ==> (#[trigger] s[k]).is_copy()
}

/// Appending one edit extends the rebuilt sequences and the counts by that
/// edit's own contribution.
pub proof fn lemma_push<T>(s: Seq<Edit<T>>, e: Edit<T>)
    ensures
        target_values(s.push(e)) == target_values(s) + target_part(e),
        source_values(s.push(e)) == source_values(s) + source_part(e),
        copy_count(s.push(e)) == copy_count(s) + if e.is_copy() { 1nat } else { 0nat },
        insert_count(s.push(e)) == insert_count(s) + if e.is_insert() { 1nat } else { 0nat },
        remove_count(s.push(e)) == remove_count(s) + if e.is_remove() { 1nat } else { 0nat },
        all_copies(s.push(e)) <==> all_copies(s) && e.is_copy(),
{
    assert(s.push(e).drop_last() =~= s);
    assert(s.push(e).last() == e);
    if all_copies(s) && e.is_copy() {
        assert forall|k: int| 0 <= k < s.push(e).len() implies (#[trigger] s.push(e)[k]).is_copy()
        by {
            if k < s.len() {
                assert(s.push(e)[k] == s[k]);
            }
        }
    }
    if all_copies(s.push(e)) {
        assert forall|k: int| 0 <= k < s.len() implies (#[trigger] s[k]).is_copy() by {
            assert(s.push(e)[k] == s[k]);
        }
        assert(s.push(e)[s.len() as int] == e);
    }
}

/// Prepending one edit extends the rebuilt sequences and the counts by that
/// edit's own contribution.
pub proof fn lemma_prepend<T>(e: Edit<T>, s: Seq<Edit<T>>)
    ensures
        target_values(seq![e] + s) == target_part(e) + target_values(s),
        source_values(seq![e] + s) == source_part(e) + source_values(s),
        copy_count(seq![e] + s) == copy_count(s) + if e.is_copy() { 1nat } else { 0nat },
    decreases s.len(),
{
    if s.len() == 0 {
        assert(seq![e] + s =~= seq![e]);
        assert(seq![e].last() == e);
        assert(seq![e].drop_last() =~= Seq::<Edit<T>>::empty());
        assert(target_values(Seq::<Edit<T>>::empty()) == Seq::<T>::empty());
        assert(source_values(Seq::<Edit<T>>::empty()) == Seq::<T>::empty());
        assert(copy_count(Seq::<Edit<T>>::empty()) == 0);
        assert(target_values(seq![e]) =~= target_part(e));
        assert(source_values(seq![e]) =~= source_part(e));
    } else {
        let w = seq![e] + s;
        assert(w.drop_last() =~= seq![e] + s.drop_last());
        assert(w.last() == s.last());
        lemma_prepend(e, s.drop_last());
        assert(target_values(w) == target_part(e) + target_values(s.drop_last()) + target_part(
            s.last(),
        ));
        assert(target_part(e) + target_values(s.drop_last()) + target_part(s.last()) =~= target_part(
            e,
        ) + target_values(s));
        assert(source_values(w) == source_part(e) + source_values(s.drop_last()) + source_part(
            s.last(),
        ));
        assert(source_part(e) + source_values(s.drop_last()) + source_part(s.last()) =~= source_part(
            e,
        ) + source_values(s));
    }
}

/// Reversing a script reverses what it rebuilds, and keeps its counts and
/// its being all-`Copy`.
pub proof fn lemma_reverse<T>(s: Seq<Edit<T>>)
    ensures
        target_values(s.reverse()) == target_values(s).reverse(),
        source_values(s.reverse()) == source_values(s).reverse(),
        copy_count(s.reverse()) == copy_count(s),
        all_copies(s.reverse()) <==> all_copies(s),
    decreases s.len(),
{
    if s.len() == 0 {
        assert(s.reverse() =~= s);
        assert(target_values(s).reverse() =~= target_values(s));
        assert(source_values(s).reverse() =~= source_values(s));
    } else {
        let t = s.drop_last();
        assert(s.reverse() =~= seq![s.last()] + t.reverse());
        lemma_reverse(t);
        lemma_prepend(s.last(), t.reverse());
        assert(target_values(s.reverse()) == target_part(s.last()) + target_values(t).reverse());
        assert(target_part(s.last()) + target_values(t).reverse() =~= (target_values(t)
            + target_part(s.last())).reverse());
        assert(source_values(s.reverse()) == source_part(s.last()) + source_values(t).reverse());
        assert(source_part(s.last()) + source_values(t).reverse() =~= (source_values(t)
            + source_part(s.last())).reverse());
        if all_copies(s) {
            assert forall|k: int| 0 <= k < s.reverse().len() implies (#[trigger] s.reverse()[k]).is_copy()
            by {
                assert(s.reverse()[k] == s[s.len() - 1 - k]);
            }
        }
        if all_copies(s.reverse()) {
            assert forall|k: int| 0 <= k < s.len() implies (#[trigger] s[k]).is_copy() by {
                assert(s[k] == s.reverse()[s.len() - 1 - k]);
            }
        }
    }
}

/// The three counts partition the script, and each rebuilt sequence is as
/// long as the edits that feed it.
pub proof fn lemma_counts<T>(s: Seq<Edit<T>>)
    ensures
        s.len() == copy_count(s) + insert_count(s) + remove_count(s),
        target_values(s).len() == copy_count(s) + insert_count(s),
        source_values(s).len() == copy_count(s) + remove_count(s),
    decreases s.len(),
{
    if s.len() == 0 {
    } else {
        lemma_counts(s.drop_last());
    }
}

/// A script of nothing but `Copy` edits rebuilds the same sequence on both
/// sides and counts no `Insert` or `Remove`.
pub proof fn lemma_all_copies<T>(s: Seq<Edit<T>>)
    requires
        all_copies(s),
    ensures
        target_values(s) == source_values(s),
        copy_count(s) == s.len(),
        insert_count(s) == 0,
        remove_count(s) == 0,
    decreases s.len(),
{
    if s.len() == 0 {
    } else {
        assert(s[s.len() - 1].is_copy());
        assert(all_copies(s.drop_last())) by {
            assert forall|k: int| 0 <= k < s.drop_last().len() implies (#[trigger] s.drop_last()[k]).is_copy()
            by {
                assert(s.drop_last()[k] == s[k]);
            }
        }
        lemma_all_copies(s.drop_last());
    }
}

} // verus!

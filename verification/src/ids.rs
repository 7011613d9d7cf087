//! Lists of node ids.
use vstd::prelude::*;

verus! {

/// Index of the first occurrence of `id`, if there is one.
pub(crate) fn position(ids: &Vec<usize>, id: usize) -> (found: Option<usize>)
    ensures
        match found {
            Some(i) => {
                &&& i < ids@.len()
                &&& ids@[i as int] == id
                &&& forall|j: int| 0 <= j < i ==> ids@[j] != id
            },
            None => !ids@.contains(id),
        },
{
    let mut i: usize = 0;
    while i < ids.len()
        invariant
            i <= ids@.len(),
            forall|j: int| 0 <= j < i ==> ids@[j] != id,
        decreases ids@.len() - i,
    {
        if ids[i] == id {
            return Some(i);
        }
        i = i + 1;
    }
    None
}

/// The ids from index `first` on.
pub(crate) fn suffix(ids: &Vec<usize>, first: usize) -> (tail: Vec<usize>)
    requires
        first <= ids@.len(),
    ensures
        tail@ == ids@.skip(first as int),
{
    let mut tail: Vec<usize> = Vec::new();
    let mut i: usize = first;
    while i < ids.len()
        invariant
            first <= i <= ids@.len(),
            tail@ == ids@.subrange(first as int, i as int),
        decreases ids@.len() - i,
    {
        tail.push(ids[i]);
        i = i + 1;
        assert(tail@ =~= ids@.subrange(first as int, i as int));
    }
    tail
}

/// A list holds its last id and the ids before it.
pub(crate) proof fn lemma_contains_drop_last(ids: Seq<usize>)
    requires
        ids.len() > 0,
    ensures
        forall|id: usize|
            #![trigger ids.contains(id)]
            #![trigger ids.drop_last().contains(id)]
            ids.contains(id) <==> ids.drop_last().contains(id) || id == ids.last(),
{
    assert forall|id: usize| #[trigger] ids.contains(id) implies ids.drop_last().contains(id) || id
        == ids.last() by {
        let i = ids.index_of(id);
        if i < ids.len() - 1 {
            assert(ids.drop_last()[i] == id);
        }
    }
    assert forall|id: usize| ids.drop_last().contains(id) || id == ids.last() implies
        #[trigger] ids.contains(id) by {
        if ids.drop_last().contains(id) {
            let i = ids.drop_last().index_of(id);
            assert(ids[i] == id);
        }
    }
}

/// A list holds its first id and the ids after it.
pub(crate) proof fn lemma_contains_drop_first(ids: Seq<usize>)
    requires
        ids.len() > 0,
    ensures
        forall|id: usize| #[trigger]
            ids.contains(id) <==> ids.drop_first().contains(id) || id == ids[0],
{
    assert forall|id: usize| #[trigger] ids.contains(id) implies ids.drop_first().contains(id) || id
        == ids[0] by {
        let i = ids.index_of(id);
        if i > 0 {
            assert(ids.drop_first()[i - 1] == id);
        }
    }
    assert forall|id: usize| ids.drop_first().contains(id) || id == ids[0] implies
        #[trigger] ids.contains(id) by {
        if ids.drop_first().contains(id) {
            let i = ids.drop_first().index_of(id);
            assert(ids[i + 1] == id);
        }
    }
}

/// Pushing adds the pushed id and nothing else.
pub(crate) proof fn lemma_contains_push(ids: Seq<usize>, last: usize)
    ensures
        forall|id: usize|
            #![trigger ids.push(last).contains(id)]
            #![trigger ids.contains(id)]
            ids.push(last).contains(id) <==> ids.contains(id) || id == last,
{
    assert(ids.push(last).drop_last() =~= ids);
    lemma_contains_drop_last(ids.push(last));
    assert forall|id: usize| #[trigger] ids.contains(id) implies ids.push(last).contains(id) by {
        assert(ids.push(last)[ids.index_of(id)] == id);
    }
}

/// A concatenation holds the ids of both lists.
pub(crate) proof fn lemma_contains_concat(a: Seq<usize>, b: Seq<usize>)
    ensures
        forall|id: usize| #[trigger]
            (a + b).contains(id) <==> a.contains(id) || b.contains(id),
        (a + b).to_set() == a.to_set().union(b.to_set()),
{
    assert forall|id: usize| a.contains(id) || b.contains(id) implies #[trigger] (a + b).contains(
        id,
    ) by {
        if a.contains(id) {
            assert((a + b)[a.index_of(id)] == id);
        } else {
            assert((a + b)[a.len() + b.index_of(id)] == id);
        }
    }
    assert((a + b).to_set() =~= a.to_set().union(b.to_set()));
}

/// There are no more different ids than `usize` has values.
pub(crate) proof fn lemma_distinct_ids_fit(ids: Seq<usize>)
    requires
        ids.no_duplicates(),
    ensures
        ids.len() <= usize::MAX + 1,
{
    let values = ids.to_set().map(|id: usize| id as int);
    let all = vstd::set_lib::set_int_range(0, usize::MAX + 1);
    vstd::set_lib::lemma_int_range(0, usize::MAX + 1);
    ids.unique_seq_to_set();
    vstd::set_lib::lemma_map_size(ids.to_set(), values, |id: usize| id as int);
    vstd::set_lib::lemma_len_subset(values, all);
}

/// Filtering keeps the ids that satisfy the predicate, and no others.
pub(crate) proof fn lemma_filter_contains(ids: Seq<usize>, pred: spec_fn(usize) -> bool)
    ensures
        forall|id: usize| #[trigger]
            ids.filter(pred).contains(id) <==> ids.contains(id) && pred(id),
        ids.filter(pred).len() <= ids.len(),
    decreases ids.len(),
{
    reveal(Seq::filter);
    if ids.len() > 0 {
        lemma_filter_contains(ids.drop_last(), pred);
        lemma_contains_drop_last(ids);
        lemma_contains_push(ids.drop_last().filter(pred), ids.last());
    }
}

/// Filtering with predicates that agree on the list gives the same list.
pub(crate) proof fn lemma_filter_agrees(
    ids: Seq<usize>,
    p: spec_fn(usize) -> bool,
    q: spec_fn(usize) -> bool,
)
    requires
        forall|id: usize| #[trigger] ids.contains(id) ==> p(id) == q(id),
    ensures
        ids.filter(p) == ids.filter(q),
    decreases ids.len(),
{
    reveal(Seq::filter);
    if ids.len() > 0 {
        lemma_contains_drop_last(ids);
        assert(ids.contains(ids.last()));
        lemma_filter_agrees(ids.drop_last(), p, q);
    }
}

/// Filtering with a predicate that holds of every id changes nothing.
pub(crate) proof fn lemma_filter_all(ids: Seq<usize>, pred: spec_fn(usize) -> bool)
    requires
        forall|id: usize| #[trigger] ids.contains(id) ==> pred(id),
    ensures
        ids.filter(pred) == ids,
    decreases ids.len(),
{
    reveal(Seq::filter);
    if ids.len() > 0 {
        lemma_contains_drop_last(ids);
        assert(ids.contains(ids.last()));
        lemma_filter_all(ids.drop_last(), pred);
        assert(ids.drop_last().push(ids.last()) =~= ids);
    }
}

/// Filtering brings in no duplicates.
pub(crate) proof fn lemma_filter_distinct(ids: Seq<usize>, pred: spec_fn(usize) -> bool)
    requires
        ids.no_duplicates(),
    ensures
        ids.filter(pred).no_duplicates(),
    decreases ids.len(),
{
    reveal(Seq::filter);
    if ids.len() > 0 {
        let front = ids.drop_last();
        lemma_filter_distinct(front, pred);
        lemma_filter_contains(front, pred);
        assert(!front.contains(ids.last()));
        assert(!front.filter(pred).contains(ids.last()));
    }
}

} // verus!

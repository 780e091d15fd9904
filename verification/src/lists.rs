//! Small list operations that the rest of the crate is built from.
use vstd::prelude::*;

verus! {

/// A copy of a list.
pub fn copied<T: Copy>(items: &Vec<T>) -> (copy: Vec<T>)
    ensures
        copy@ == items@,
{
    let mut copy: Vec<T> = Vec::new();
    let mut i: usize = 0;
    while i < items.len()
        invariant
            i <= items.len(),
            copy@ == items@.take(i as int),
        decreases items.len() - i,
    {
        copy.push(items[i]);
        assert(items@.take(i + 1) =~= items@.take(i as int).push(items@[i as int]));
        i += 1;
    }
    assert(items@.take(items@.len() as int) =~= items@);
    copy
}

/// The part of a list from `start` up to but excluding `end`.
pub fn copied_range<T: Copy>(items: &Vec<T>, start: usize, end: usize) -> (copy: Vec<T>)
    requires
        start <= end <= items@.len(),
    ensures
        copy@ == items@.subrange(start as int, end as int),
{
    let mut copy: Vec<T> = Vec::new();
    let mut i: usize = start;
    while i < end
        invariant
            start <= i <= end <= items@.len(),
            copy@ == items@.subrange(start as int, i as int),
        decreases end - i,
    {
        copy.push(items[i]);
        assert(items@.subrange(start as int, i + 1) =~= items@.subrange(start as int, i as int).push(
            items@[i as int],
        ));
        i += 1;
    }
    copy
}

/// Keeping the items that satisfy a condition, one more item at a time.
pub proof fn lemma_filter_step<T>(items: Seq<T>, i: int, keep: spec_fn(T) -> bool)
    requires
        0 <= i < items.len(),
    ensures
        items.take(i + 1).filter(keep) == if keep(items[i]) {
            items.take(i).filter(keep).push(items[i])
        } else {
            items.take(i).filter(keep)
        },
{
    reveal(Seq::filter);
    assert(items.take(i + 1).drop_last() =~= items.take(i));
    assert(items.take(i + 1).last() == items[i]);
}

/// A filtered list holds what satisfies the condition, and nothing else.
pub proof fn lemma_filter_contains<T>(items: Seq<T>, keep: spec_fn(T) -> bool, item: T)
    ensures
        items.filter(keep).contains(item) <==> items.contains(item) && keep(item),
    decreases items.len(),
{
    reveal(Seq::filter);
    if items.len() > 0 {
        let rest = items.drop_last();
        lemma_filter_contains(rest, keep, item);
        if items.contains(item) && item != items.last() {
            let i = choose|i: int| 0 <= i < items.len() && items[i] == item;
            assert(rest[i] == item);
        }
        if rest.contains(item) {
            let i = choose|i: int| 0 <= i < rest.len() && rest[i] == item;
            assert(items[i] == item);
        }
        if item == items.last() {
            assert(items[items.len() - 1] == item);
        }
        if keep(items.last()) {
            let kept = rest.filter(keep);
            let all = kept.push(items.last());
            assert(items.filter(keep) == all);
            if all.contains(item) {
                let i = choose|i: int| 0 <= i < all.len() && all[i] == item;
                if i < kept.len() {
                    assert(kept[i] == item);
                }
            }
            if kept.contains(item) {
                let i = choose|i: int| 0 <= i < kept.len() && kept[i] == item;
                assert(all[i] == item);
            }
            assert(all[kept.len() as int] == items.last());
        }
    }
}

/// All that is left of a filtered list satisfies the condition, and was in the list.
pub proof fn lemma_filter_satisfies<T>(items: Seq<T>, keep: spec_fn(T) -> bool)
    ensures
        forall|i: int| 0 <= i < items.filter(keep).len() ==> keep(#[trigger] items.filter(keep)[i]),
        forall|i: int| 0 <= i < items.filter(keep).len() ==> items.contains(#[trigger] items.filter(keep)[i]),
{
    let kept = items.filter(keep);
    assert forall|i: int| 0 <= i < kept.len() implies keep(#[trigger] kept[i]) && items.contains(kept[i]) by {
        lemma_filter_contains(items, keep, kept[i]);
        assert(kept.contains(kept[i]));
    }
}

/// What `f` makes of the items, without those of which it makes nothing.
pub open spec fn filter_mapped<T, U>(items: Seq<T>, f: spec_fn(T) -> Option<U>) -> Seq<U>
    decreases items.len(),
{
    if items.len() == 0 {
        Seq::empty()
    } else {
        let rest = filter_mapped(items.drop_last(), f);
        match f(items.last()) {
            Some(value) => rest.push(value),
            None => rest,
        }
    }
}

/// Mapping the items, one more item at a time.
pub proof fn lemma_filter_mapped_step<T, U>(items: Seq<T>, i: int, f: spec_fn(T) -> Option<U>)
    requires
        0 <= i < items.len(),
    ensures
        filter_mapped(items.take(i + 1), f) == match f(items[i]) {
            Some(value) => filter_mapped(items.take(i), f).push(value),
            None => filter_mapped(items.take(i), f),
        },
{
    assert(items.take(i + 1).drop_last() =~= items.take(i));
    assert(items.take(i + 1).last() == items[i]);
}

/// The items cut into consecutive pieces of `size`, of which the last may be shorter.
pub open spec fn pieces<T>(items: Seq<T>, size: int) -> Seq<Seq<T>>
    decreases items.len(),
{
    if items.len() == 0 || size <= 0 {
        Seq::empty()
    } else if items.len() <= size {
        seq![items]
    } else {
        seq![items.take(size)] + pieces(items.skip(size), size)
    }
}

/// The lists of lists that a nested vector stands for.
pub open spec fn nested<T>(lists: Seq<Vec<T>>) -> Seq<Seq<T>> {
    lists.map_values(|list: Vec<T>| list@)
}

/// Cuts a list into consecutive pieces of `size`, of which the last may be shorter.
pub fn chunked<T: Copy>(items: &Vec<T>, size: usize) -> (chunks: Vec<Vec<T>>)
    requires
        size > 0,
    ensures
        nested(chunks@) == pieces(items@, size as int),
{
    let mut chunks: Vec<Vec<T>> = Vec::new();
    let mut start: usize = 0;
    assert(items@.skip(0) =~= items@);
    while items.len() - start > size
        invariant
            size > 0,
            start <= items.len(),
            nested(chunks@) + pieces(items@.skip(start as int), size as int) =~= pieces(
                items@,
                size as int,
            ),
        decreases items.len() - start,
    {
        let chunk = copied_range(items, start, start + size);
        let ghost rest = items@.skip(start as int);
        let ghost before = chunks@;
        chunks.push(chunk);
        proof {
            assert(rest.take(size as int) =~= chunk@);
            assert(rest.skip(size as int) =~= items@.skip(start + size));
            assert(nested(chunks@) =~= nested(before).push(chunk@));
        }
        start = start + size;
    }
    if start < items.len() {
        let chunk = copied_range(items, start, items.len());
        let ghost before = chunks@;
        chunks.push(chunk);
        proof {
            assert(items@.skip(start as int) =~= chunk@);
            assert(nested(chunks@) =~= nested(before).push(chunk@));
        }
    }
    chunks
}

/// Every piece holds at least one item and at most `size` of them, every piece but the last holds
/// exactly `size`, and the pieces one after the other are the items that were cut.
pub proof fn pieces_cover_the_items<T>(items: Seq<T>, size: int)
    requires
        size > 0,
    ensures
        pieces(items, size).flatten() == items,
        forall|k: int| 0 <= k < pieces(items, size).len() ==> 0 < #[trigger] pieces(items, size)[k].len() <= size,
        forall|k: int| 0 <= k < pieces(items, size).len() - 1 ==> #[trigger] pieces(items, size)[k].len() == size,
    decreases items.len(),
{
    let all = pieces(items, size);
    if items.len() == 0 {
        assert(all.flatten() =~= items);
    } else if items.len() <= size {
        assert(all.drop_first() =~= Seq::empty());
        reveal_with_fuel(Seq::flatten, 2);
        assert(all.flatten() =~= items);
    } else {
        let rest = pieces(items.skip(size), size);
        pieces_cover_the_items(items.skip(size), size);
        assert(all.drop_first() =~= rest);
        assert(all[0] == items.take(size));
        assert(all.flatten() =~= items.take(size) + items.skip(size));
        assert(items.take(size) + items.skip(size) =~= items);
        assert forall|k: int| 0 <= k < all.len() implies 0 < #[trigger] all[k].len() <= size by {
            if k > 0 {
                assert(all[k] == rest[k - 1]);
            }
        }
        assert forall|k: int| 0 <= k < all.len() - 1 implies #[trigger] all[k].len() == size by {
            if k > 0 {
                assert(all[k] == rest[k - 1]);
            }
        }
    }
}

/// A piece holds the items from where it begins, and the last one holds all that are left.
pub proof fn pieces_are_consecutive<T>(items: Seq<T>, size: int, k: int, j: int)
    requires
        size > 0,
        0 <= k < pieces(items, size).len(),
        0 <= j < pieces(items, size)[k].len(),
    ensures
        k * size + j < items.len(),
        pieces(items, size)[k][j] == items[k * size + j],
        k == pieces(items, size).len() - 1 ==> k * size + pieces(items, size)[k].len() == items.len(),
    decreases items.len(),
{
    if k == 0 {
        assert(k * size == 0) by (nonlinear_arith)
            requires
                k == 0,
        ;
    }
    if items.len() > size {
        let rest = items.skip(size);
        if k > 0 {
            assert(pieces(items, size)[k] == pieces(rest, size)[k - 1]);
            pieces_are_consecutive(rest, size, k - 1, j);
            assert((k - 1) * size + size == k * size) by (nonlinear_arith);
            assert(rest[(k - 1) * size + j] == items[k * size + j]);
        } else {
            assert(pieces(items, size)[0] == items.take(size));
        }
    }
}

/// Mapping items of which something can be made each gives one item for each.
pub proof fn lemma_filter_mapped_all<T, U>(items: Seq<T>, f: spec_fn(T) -> Option<U>)
    requires
        forall|i: int| 0 <= i < items.len() ==> f(#[trigger] items[i]) is Some,
    ensures
        filter_mapped(items, f).len() == items.len(),
        forall|i: int| 0 <= i < items.len() ==> Some(#[trigger] filter_mapped(items, f)[i]) == f(items[i]),
    decreases items.len(),
{
    if items.len() > 0 {
        let short = items.drop_last();
        assert forall|i: int| 0 <= i < short.len() implies f(#[trigger] short[i]) is Some by {
            assert(f(items[i]) is Some);
        }
        lemma_filter_mapped_all(short, f);
        assert(f(items[items.len() - 1]) is Some);
        assert forall|i: int| 0 <= i < items.len() implies Some(#[trigger] filter_mapped(items, f)[i]) == f(
            items[i],
        ) by {
            if i < short.len() {
                assert(filter_mapped(items, f)[i] == filter_mapped(short, f)[i]);
                assert(short[i] == items[i]);
            }
        }
    }
}

/// Mapping an item of which something can be made brings that into the outcome; tells where.
pub proof fn lemma_filter_mapped_keeps<T, U>(items: Seq<T>, f: spec_fn(T) -> Option<U>, i: int) -> (m: int)
    requires
        0 <= i < items.len(),
        f(items[i]) is Some,
    ensures
        0 <= m < filter_mapped(items, f).len(),
        Some(filter_mapped(items, f)[m]) == f(items[i]),
    decreases items.len(),
{
    if i == items.len() - 1 {
        filter_mapped(items.drop_last(), f).len() as int
    } else {
        assert(items.drop_last()[i] == items[i]);
        lemma_filter_mapped_keeps(items.drop_last(), f, i)
    }
}

/// Every item is in one of the pieces; tells in which, and where in it.
pub proof fn lemma_piece_of<T>(items: Seq<T>, size: int, i: int) -> (place: (int, int))
    requires
        size > 0,
        0 <= i < items.len(),
    ensures
        0 <= place.0 < pieces(items, size).len(),
        0 <= place.1 < pieces(items, size)[place.0].len(),
        pieces(items, size)[place.0][place.1] == items[i],
    decreases items.len(),
{
    if i < size {
        (0, i)
    } else {
        let place = lemma_piece_of(items.skip(size), size, i - size);
        assert(pieces(items, size)[place.0 + 1] == pieces(items.skip(size), size)[place.0]);
        (place.0 + 1, place.1)
    }
}

} // verus!

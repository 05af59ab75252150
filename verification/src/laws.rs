//! Properties that relate the operations of the library to one another.

use crate::map::{
    distinct_dests, identity_entries, identity_max, lemma_sequential_max, max_dest,
    saturating_len, sequential_entries, sequential_max, ColumnMap,
};
use crate::map::lemma_max_dest;
use crate::row::{
    combined, combined_len, combined_owned, disjoint_dests, is_default, lemma_source_of, maps_to,
    reordered, reordered_owned,
};
use vstd::prelude::*;

verus! {

/// The entries of a sequential map never repeat a destination.
pub proof fn law_sequential_distinct(src_start: usize, src_end: usize, dest_start: usize)
    requires
        src_start <= src_end,
        dest_start + (src_end - src_start) <= usize::MAX,
    ensures
        distinct_dests(sequential_entries(src_start, src_end, dest_start)),
{
}

/// In a sequential map, destination `dest_start + k` comes from source `src_start + k`.
pub proof fn law_sequential_source(
    src_start: usize,
    src_end: usize,
    dest_start: usize,
    k: int,
)
    requires
        src_start <= src_end,
        dest_start + (src_end - src_start) <= usize::MAX,
        0 <= k < src_end - src_start,
    ensures
        maps_to(sequential_entries(src_start, src_end, dest_start), dest_start + k),
        crate::row::source_of(sequential_entries(src_start, src_end, dest_start), dest_start + k)
            == src_start + k,
{
    let e = sequential_entries(src_start, src_end, dest_start);
    lemma_source_of(e, src_start + k);
}

/// No source of a sequential map sends its value to a destination outside
/// `dest_start..dest_start + (src_end - src_start)`.
pub proof fn law_sequential_range(src_start: usize, src_end: usize, dest_start: usize, d: int)
    requires
        src_start <= src_end,
        dest_start + (src_end - src_start) <= usize::MAX,
        0 <= d <= usize::MAX,
        d < dest_start || d >= dest_start + (src_end - src_start),
    ensures
        !maps_to(sequential_entries(src_start, src_end, dest_start), d),
{
    let e = sequential_entries(src_start, src_end, dest_start);
    if maps_to(e, d) {
        let i = choose|i: int| 0 <= i < e.len() && e[i] == Some(d as usize);
    }
}

/// The identity map is the sequential map from `0` to `0`, and its `max` is its largest
/// destination.
pub proof fn law_identity_is_sequential(length: usize)
    ensures
        identity_entries(length) == sequential_entries(0, length, 0),
        max_dest(identity_entries(length)) == identity_max(length),
        identity_max(length) == sequential_max(0, length, 0),
{
    assert(identity_entries(length) == sequential_entries(0, length, 0));
    lemma_sequential_max(0, length, 0);
}

/// Reordering a non-empty row by the identity map on its length gives the row back.
pub proof fn law_identity_reorder<T>(row: Seq<T>, fallback: T)
    requires
        0 < row.len() <= usize::MAX,
    ensures
        identity_max(row.len() as usize) + 1 == row.len(),
        forall|d: int|
            0 <= d < row.len() ==> #[trigger] reordered(
                identity_entries(row.len() as usize),
                row,
                fallback,
                d,
            ) == row[d],
{
    let n = row.len() as usize;
    let e = identity_entries(n);
    assert forall|d: int| 0 <= d < row.len() implies #[trigger] reordered(e, row, fallback, d)
        == row[d] by {
        lemma_source_of(e, d);
    }
}

/// Reordering by the sequential map `src_start..src_end -> 0..` over a non-empty range
/// gives the fields `src_start..src_end` of the row.
pub proof fn law_sequential_reorder<T>(row: Seq<T>, src_start: usize, src_end: usize, fallback: T)
    requires
        src_start < src_end <= row.len(),
    ensures
        sequential_max(src_start, src_end, 0) + 1 == src_end - src_start,
        forall|d: int|
            0 <= d < src_end - src_start ==> #[trigger] reordered(
                sequential_entries(src_start, src_end, 0),
                row,
                fallback,
                d,
            ) == row.subrange(src_start as int, src_end as int)[d],
{
    assert forall|d: int| 0 <= d < src_end - src_start implies #[trigger] reordered(
        sequential_entries(src_start, src_end, 0),
        row,
        fallback,
        d,
    ) == row.subrange(src_start as int, src_end as int)[d] by {
        law_sequential_source(src_start, src_end, 0, d);
    }
}

/// The two maps of a splice never collide, and combining two rows by them gives the
/// fields `src_start_1..src_end_1` of the first row followed by the fields
/// `src_start_2..src_end_2` of the second, provided the two ranges are not both empty.
pub proof fn law_splice_combine<T>(
    row_1: Seq<T>,
    row_2: Seq<T>,
    src_start_1: usize,
    src_end_1: usize,
    src_start_2: usize,
    src_end_2: usize,
    map_1: ColumnMap,
    map_2: ColumnMap,
    fallback: T,
)
    requires
        src_start_1 <= src_end_1 <= row_1.len(),
        src_start_2 <= src_end_2 <= row_2.len(),
        0 < (src_end_1 - src_start_1) + (src_end_2 - src_start_2) <= usize::MAX,
        map_1@ == sequential_entries(src_start_1, src_end_1, 0),
        map_1.spec_max() == sequential_max(src_start_1, src_end_1, 0),
        map_2@ == sequential_entries(
            src_start_2,
            src_end_2,
            (src_end_1 - src_start_1) as usize,
        ),
        map_2.spec_max() == sequential_max(
            src_start_2,
            src_end_2,
            (src_end_1 - src_start_1) as usize,
        ),
    ensures
        disjoint_dests(map_1@, map_2@),
        combined_len(map_1, map_2) == (src_end_1 - src_start_1) + (src_end_2 - src_start_2),
        forall|d: int|
            0 <= d < combined_len(map_1, map_2) ==> #[trigger] combined(
                map_1@,
                row_1,
                map_2@,
                row_2,
                fallback,
                d,
            ) == (row_1.subrange(src_start_1 as int, src_end_1 as int) + row_2.subrange(
                src_start_2 as int,
                src_end_2 as int,
            ))[d],
{
    let len_1 = (src_end_1 - src_start_1) as usize;
    let e1 = map_1@;
    let e2 = map_2@;
    assert forall|i: int, j: int|
        0 <= i < e1.len() && 0 <= j < e2.len() && e1[i] is Some implies e1[i] != e2[j] by {}
    let whole = row_1.subrange(src_start_1 as int, src_end_1 as int) + row_2.subrange(
        src_start_2 as int,
        src_end_2 as int,
    );
    assert forall|d: int| 0 <= d < combined_len(map_1, map_2) implies #[trigger] combined(
        e1,
        row_1,
        e2,
        row_2,
        fallback,
        d,
    ) == whole[d] by {
        if d < len_1 {
            law_sequential_source(src_start_1, src_end_1, 0, d);
        } else {
            law_sequential_range(src_start_1, src_end_1, 0, d);
            law_sequential_source(src_start_2, src_end_2, len_1, d - len_1);
        }
    }
}

/// Combining with a second map that places nothing, and whose `max` is no larger,
/// is reordering by the first map.
pub proof fn law_combine_with_empty_second<T>(
    map_1: ColumnMap,
    row_1: Seq<T>,
    map_2: ColumnMap,
    row_2: Seq<T>,
    fallback: T,
)
    requires
        map_1.wf(),
        map_2.wf(),
        forall|i: int| 0 <= i < map_2@.len() ==> map_2@[i] is None,
        map_2.spec_max() <= map_1.spec_max(),
    ensures
        disjoint_dests(map_1@, map_2@),
        combined_len(map_1, map_2) == map_1.spec_max() + 1,
        forall|d: int|
            0 <= d < combined_len(map_1, map_2) ==> #[trigger] combined(
                map_1@,
                row_1,
                map_2@,
                row_2,
                fallback,
                d,
            ) == reordered(map_1@, row_1, fallback, d),
{
    assert forall|d: int| 0 <= d < combined_len(map_1, map_2) implies #[trigger] combined(
        map_1@,
        row_1,
        map_2@,
        row_2,
        fallback,
        d,
    ) == reordered(map_1@, row_1, fallback, d) by {
        if maps_to(map_2@, d) {
            let j = choose|j: int| 0 <= j < map_2@.len() && map_2@[j] == Some(d as usize);
        }
    }
}

/// Where the destinations of two maps do not meet, neither map places a value at a
/// destination where the other does.
proof fn lemma_disjoint_exclusive(e1: Seq<Option<usize>>, e2: Seq<Option<usize>>, d: int)
    requires
        disjoint_dests(e1, e2),
        0 <= d <= usize::MAX,
    ensures
        !(maps_to(e1, d) && maps_to(e2, d)),
{
    if maps_to(e1, d) && maps_to(e2, d) {
        let i = choose|i: int| 0 <= i < e1.len() && e1[i] == Some(d as usize);
        let j = choose|j: int| 0 <= j < e2.len() && e2[j] == Some(d as usize);
        assert(e1[i] == e2[j]);
    }
}

/// Combining is symmetric in its two (row, map) pairs: the maps collide either way or
/// neither way, the result has the same length, and every destination gets the same
/// value (as references) or the same choice of clones and defaults (owned).
pub proof fn law_combine_commutes<T: Clone + Default>(
    map_1: ColumnMap,
    row_1: Seq<T>,
    map_2: ColumnMap,
    row_2: Seq<T>,
    fallback: T,
)
    requires
        map_1.wf(),
        map_2.wf(),
    ensures
        disjoint_dests(map_1@, map_2@) == disjoint_dests(map_2@, map_1@),
        combined_len(map_1, map_2) == combined_len(map_2, map_1),
        disjoint_dests(map_1@, map_2@) ==> forall|d: int|
            0 <= d < combined_len(map_1, map_2) ==> #[trigger] combined(
                map_1@,
                row_1,
                map_2@,
                row_2,
                fallback,
                d,
            ) == combined(map_2@, row_2, map_1@, row_1, fallback, d),
        disjoint_dests(map_1@, map_2@) ==> forall|d: int, x: T|
            0 <= d < combined_len(map_1, map_2) ==> (#[trigger] combined_owned(
                map_1@,
                row_1,
                map_2@,
                row_2,
                d,
                x,
            ) == combined_owned(map_2@, row_2, map_1@, row_1, d, x)),
{
    let e1 = map_1@;
    let e2 = map_2@;
    assert(disjoint_dests(e1, e2) == disjoint_dests(e2, e1)) by {
        if disjoint_dests(e1, e2) {
            assert forall|i: int, j: int|
                0 <= i < e2.len() && 0 <= j < e1.len() && e2[i] is Some implies e2[i] != e1[j] by {
                if e1[j] is Some {
                    assert(e1[j] != e2[i]);
                }
            }
        }
        if disjoint_dests(e2, e1) {
            assert forall|i: int, j: int|
                0 <= i < e1.len() && 0 <= j < e2.len() && e1[i] is Some implies e1[i] != e2[j] by {
                if e2[j] is Some {
                    assert(e2[j] != e1[i]);
                }
            }
        }
    }
    if disjoint_dests(e1, e2) {
        assert forall|d: int| 0 <= d < combined_len(map_1, map_2) implies #[trigger] combined(
            e1,
            row_1,
            e2,
            row_2,
            fallback,
            d,
        ) == combined(e2, row_2, e1, row_1, fallback, d) by {
            lemma_disjoint_exclusive(e1, e2, d);
        }
        assert forall|d: int, x: T| 0 <= d < combined_len(map_1, map_2) implies (
        #[trigger] combined_owned(e1, row_1, e2, row_2, d, x) == combined_owned(
            e2,
            row_2,
            e1,
            row_1,
            d,
            x,
        )) by {
            lemma_disjoint_exclusive(e1, e2, d);
        }
    }
}

/// Combining as references and then cloning gives what combining into owned fields
/// may give: at a destination that a map places, any clone of the referenced field is
/// a value that the owned combination may hold there; at any other destination the
/// references point at the fallback and the owned combination holds a default.
pub proof fn law_combine_ref_then_owned<T: Clone + Default>(
    entries_1: Seq<Option<usize>>,
    row_1: Seq<T>,
    entries_2: Seq<Option<usize>>,
    row_2: Seq<T>,
    fallback: T,
    d: int,
    x: T,
)
    ensures
        (maps_to(entries_1, d) || maps_to(entries_2, d)) && cloned(
            combined(entries_1, row_1, entries_2, row_2, fallback, d),
            x,
        ) ==> combined_owned(entries_1, row_1, entries_2, row_2, d, x),
        !maps_to(entries_1, d) && !maps_to(entries_2, d) ==> combined(
            entries_1,
            row_1,
            entries_2,
            row_2,
            fallback,
            d,
        ) == fallback && (combined_owned(entries_1, row_1, entries_2, row_2, d, x) <==> is_default(
            x,
        )),
{
}

/// Reordering as references and then cloning gives what reordering into owned fields
/// may give, in the same way as for combining.
pub proof fn law_reorder_ref_then_owned<T: Clone + Default>(
    entries: Seq<Option<usize>>,
    row: Seq<T>,
    fallback: T,
    d: int,
    x: T,
)
    ensures
        maps_to(entries, d) && cloned(reordered(entries, row, fallback, d), x) ==> reordered_owned(
            entries,
            row,
            d,
            x,
        ),
        !maps_to(entries, d) ==> reordered(entries, row, fallback, d) == fallback && (
        reordered_owned(entries, row, d, x) <==> is_default(x)),
{
}

/// `p` is a permutation of `0..n`: `n` indices below `n`, each occurring once.
pub open spec fn is_permutation(p: Seq<usize>, n: nat) -> bool {
    &&& p.len() == n
    &&& forall|i: int| 0 <= i < n ==> #[trigger] p[i] < n
    &&& forall|i: int, j: int| 0 <= i < j < n ==> p[i] != p[j]
    &&& forall|d: usize| d < n ==> #[trigger] p.contains(d)
}

/// The first `len` fields of a row reordered by `entries`, with `fallback` in the gaps.
pub open spec fn reordered_seq<T>(entries: Seq<Option<usize>>, row: Seq<T>, fallback: T, len: nat) -> Seq<
    T,
> {
    Seq::new(len, |d: int| reordered(entries, row, fallback, d))
}

/// The entries of the map that sends source `i` to `p[i]`.
pub open spec fn as_entries(p: Seq<usize>) -> Seq<Option<usize>> {
    p.map_values(|x: usize| Some(x))
}

/// A permutation `p` of a row's `n` columns, and its inverse `q`, make valid maps
/// whose largest destination is `n - 1`; reordering by `p` moves field `i` to
/// `p[i]`, and reordering the result by `q` gives the row back.
pub proof fn law_permutation_round_trip<T>(p: Seq<usize>, q: Seq<usize>, row: Seq<T>, fallback: T)
    requires
        0 < row.len() <= usize::MAX,
        is_permutation(p, row.len()),
        q.len() == row.len(),
        forall|i: int| 0 <= i < row.len() ==> q[#[trigger] p[i] as int] == i,
    ensures
        distinct_dests(as_entries(p)),
        max_dest(as_entries(p)) == row.len() - 1,
        distinct_dests(as_entries(q)),
        max_dest(as_entries(q)) == row.len() - 1,
        forall|i: int|
            0 <= i < row.len() ==> reordered(as_entries(p), row, fallback, #[trigger] p[i] as int)
                == row[i],
        forall|i: int|
            0 <= i < row.len() ==> #[trigger] reordered(
                as_entries(q),
                reordered_seq(as_entries(p), row, fallback, row.len()),
                fallback,
                i,
            ) == row[i],
{
    let n = row.len();
    let ep = as_entries(p);
    let eq = as_entries(q);
    assert forall|d: int| 0 <= d < n implies #[trigger] q[d] < n && p[q[d] as int] == d by {
        assert(p.contains(d as usize));
        let i = choose|i: int| 0 <= i < n && p[i] == d;
        assert(q[p[i] as int] == i);
    }
    assert forall|i: int, j: int| 0 <= i < j < n implies q[i] != q[j] by {
        assert(p[q[i] as int] == i && p[q[j] as int] == j);
    }
    assert(distinct_dests(ep)) by {
        assert forall|i: int, j: int| 0 <= i < j < ep.len() && ep[i] is Some implies ep[i]
            != ep[j] by {
            assert(p[i] != p[j]);
        }
    }
    assert(distinct_dests(eq)) by {
        assert forall|i: int, j: int| 0 <= i < j < eq.len() && eq[i] is Some implies eq[i]
            != eq[j] by {
            assert(q[i] != q[j]);
        }
    }
    lemma_max_dest(ep);
    lemma_max_dest(eq);
    let top = (n - 1) as int;
    assert(max_dest(ep) == n - 1) by {
        assert(p.contains(top as usize));
        let i = choose|i: int| 0 <= i < n && p[i] == top;
        assert(ep[i] == Some(p[i]));
        if max_dest(ep) != 0 {
            let k = choose|k: int| 0 <= k < ep.len() && ep[k] == Some(max_dest(ep));
            assert(p[k] < n);
        }
    }
    assert(max_dest(eq) == n - 1) by {
        assert(eq[p[top] as int] == Some(q[p[top] as int]));
        if max_dest(eq) != 0 {
            let k = choose|k: int| 0 <= k < eq.len() && eq[k] == Some(max_dest(eq));
            assert(q[k] < n);
        }
    }
    assert forall|i: int| 0 <= i < n implies reordered(ep, row, fallback, #[trigger] p[i] as int)
        == row[i] by {
        assert(ep[i] == Some(p[i]));
        lemma_source_of(ep, i);
    }
    let moved = reordered_seq(ep, row, fallback, n);
    assert forall|i: int| 0 <= i < n implies #[trigger] reordered(eq, moved, fallback, i)
        == row[i] by {
        let j = p[i] as int;
        assert(eq[j] == Some(q[j]));
        assert(q[j] == i);
        lemma_source_of(eq, j);
        assert(ep[i] == Some(p[i]));
        lemma_source_of(ep, i);
    }
}

/// The length of a range is `end - start`, and `0` for a reversed range.
pub proof fn law_saturating_len(start: usize, end: usize)
    ensures
        start <= end ==> saturating_len(start, end) == end - start,
        start > end ==> saturating_len(start, end) == 0,
        saturating_len(start, end) <= usize::MAX,
{
}

/// A sequential map has exactly `src_end` entries: the sources before `src_start` are
/// dropped, and source `src_start + k` goes to destination `dest_start + k`.
pub proof fn law_sequential_shape(src_start: usize, src_end: usize, dest_start: usize)
    requires
        src_start <= src_end,
        dest_start + (src_end - src_start) <= usize::MAX,
    ensures
        sequential_entries(src_start, src_end, dest_start).len() == src_end,
        forall|i: int|
            0 <= i < src_start ==> #[trigger] sequential_entries(src_start, src_end, dest_start)[i]
                is None,
        forall|k: int|
            0 <= k < src_end - src_start ==> #[trigger] sequential_entries(
                src_start,
                src_end,
                dest_start,
            )[src_start + k] == Some((dest_start + k) as usize),
        sequential_max(src_start, src_end, dest_start) == (if src_start == src_end {
            0
        } else {
            dest_start + (src_end - src_start) - 1
        }),
{
    let e = sequential_entries(src_start, src_end, dest_start);
    assert forall|k: int| 0 <= k < src_end - src_start implies #[trigger] e[src_start + k] == Some(
        (dest_start + k) as usize,
    ) by {
        assert(e[src_start + k] == Some((dest_start + (src_start + k - src_start)) as usize));
    }
}

/// The identity map on `length` columns has `length` entries, each sending its source
/// to itself.
pub proof fn law_identity_shape(length: usize)
    ensures
        identity_entries(length).len() == length,
        forall|i: int| 0 <= i < length ==> #[trigger] identity_entries(length)[i] == Some(i as usize),
        identity_max(length) == (if length == 0 { 0 } else { length - 1 }),
{
}

/// In a map with distinct destinations, a source `s` that goes to destination `j`
/// puts its field at `j`: a reordering by reference holds `row[s]` there, and an owned
/// reordering holds exactly a clone of `row[s]` there, never a default.
pub proof fn law_reorder_places_source<T: Clone + Default>(
    entries: Seq<Option<usize>>,
    row: Seq<T>,
    fallback: T,
    s: int,
    x: T,
)
    requires
        distinct_dests(entries),
        0 <= s < entries.len(),
        entries[s] is Some,
    ensures
        reordered(entries, row, fallback, entries[s]->0 as int) == row[s],
        reordered_owned(entries, row, entries[s]->0 as int, x) <==> cloned(row[s], x),
{
    lemma_source_of(entries, s);
}

/// A destination that no source goes to holds the fallback in a reordering by
/// reference, and exactly a default value in an owned reordering.
pub proof fn law_reorder_gap<T: Clone + Default>(
    entries: Seq<Option<usize>>,
    row: Seq<T>,
    fallback: T,
    d: int,
    x: T,
)
    requires
        0 <= d <= usize::MAX,
        forall|s: int| 0 <= s < entries.len() ==> entries[s] != Some(d as usize),
    ensures
        reordered(entries, row, fallback, d) == fallback,
        reordered_owned(entries, row, d, x) <==> is_default(x),
{
}

/// When two maps with distinct destinations do not collide, each source of either map
/// puts its own row's field at its destination: by reference exactly that field, and
/// owned exactly a clone of it; a destination that neither map uses holds the fallback,
/// or exactly a default value.
pub proof fn law_combine_places_sources<T: Clone + Default>(
    entries_1: Seq<Option<usize>>,
    row_1: Seq<T>,
    entries_2: Seq<Option<usize>>,
    row_2: Seq<T>,
    fallback: T,
    s: int,
    d: int,
    x: T,
)
    requires
        distinct_dests(entries_1),
        distinct_dests(entries_2),
        disjoint_dests(entries_1, entries_2),
    ensures
        0 <= s < entries_1.len() && entries_1[s] is Some ==> {
            &&& combined(entries_1, row_1, entries_2, row_2, fallback, entries_1[s]->0 as int)
                == row_1[s]
            &&& (combined_owned(entries_1, row_1, entries_2, row_2, entries_1[s]->0 as int, x)
                <==> cloned(row_1[s], x))
        },
        0 <= s < entries_2.len() && entries_2[s] is Some ==> {
            &&& combined(entries_1, row_1, entries_2, row_2, fallback, entries_2[s]->0 as int)
                == row_2[s]
            &&& (combined_owned(entries_1, row_1, entries_2, row_2, entries_2[s]->0 as int, x)
                <==> cloned(row_2[s], x))
        },
        0 <= d <= usize::MAX && (forall|i: int|
            0 <= i < entries_1.len() ==> entries_1[i] != Some(d as usize)) && (forall|i: int|
            0 <= i < entries_2.len() ==> entries_2[i] != Some(d as usize)) ==> {
            &&& combined(entries_1, row_1, entries_2, row_2, fallback, d) == fallback
            &&& (combined_owned(entries_1, row_1, entries_2, row_2, d, x) <==> is_default(x))
        },
{
    if 0 <= s < entries_1.len() && entries_1[s] is Some {
        lemma_source_of(entries_1, s);
    }
    if 0 <= s < entries_2.len() && entries_2[s] is Some {
        let j = entries_2[s]->0 as int;
        lemma_source_of(entries_2, s);
        if maps_to(entries_1, j) {
            let i = choose|i: int| 0 <= i < entries_1.len() && entries_1[i] == Some(j as usize);
            assert(entries_1[i] == entries_2[s]);
        }
    }
}

/// The length of a combination is one past the larger `max` of the two maps.
pub proof fn law_combined_len(map_1: ColumnMap, map_2: ColumnMap)
    ensures
        combined_len(map_1, map_2) >= map_1.spec_max() + 1,
        combined_len(map_1, map_2) >= map_2.spec_max() + 1,
        combined_len(map_1, map_2) == map_1.spec_max() + 1 || combined_len(map_1, map_2)
            == map_2.spec_max() + 1,
{
}

} // verus!

//! Rows of fields, and how maps reorder and splice them.

use crate::map::{distinct_dests, ColumnMap};
use crate::text::{decimal, joined, push_decimal};
use vstd::string::StringExecFns;
use std::collections::HashSet;
use vstd::prelude::*;
use vstd::std_specs::iter::IteratorSpec;

verus! {

broadcast use vstd::std_specs::hash::group_hash_axioms;

/// Some source of the entries sends its value to destination `d`.
pub open spec fn maps_to(entries: Seq<Option<usize>>, d: int) -> bool {
    entries.contains(Some(d as usize))
}

/// The source whose value the entries send to destination `d` (meaningful where
/// `maps_to(entries, d)`).
pub open spec fn source_of(entries: Seq<Option<usize>>, d: int) -> int {
    entries.index_of(Some(d as usize))
}

/// The value at destination `d` of a row reordered by `entries`: the value of the
/// source that maps to `d`, else `fallback`.
pub open spec fn reordered<T>(entries: Seq<Option<usize>>, row: Seq<T>, fallback: T, d: int) -> T {
    if maps_to(entries, d) {
        row[source_of(entries, d)]
    } else {
        fallback
    }
}

/// The value at destination `d` when two rows are combined by two maps: the value
/// that the first map places there, else the one that the second places, else
/// `fallback`.
pub open spec fn combined<T>(
    entries_1: Seq<Option<usize>>,
    row_1: Seq<T>,
    entries_2: Seq<Option<usize>>,
    row_2: Seq<T>,
    fallback: T,
    d: int,
) -> T {
    if maps_to(entries_1, d) {
        row_1[source_of(entries_1, d)]
    } else {
        reordered(entries_2, row_2, fallback, d)
    }
}

/// No destination occurs in both entry sequences.
pub open spec fn disjoint_dests(entries_1: Seq<Option<usize>>, entries_2: Seq<Option<usize>>) -> bool {
    forall|i: int, j: int|
        0 <= i < entries_1.len() && 0 <= j < entries_2.len() && entries_1[i] is Some
            ==> entries_1[i] != entries_2[j]
}

/// `dest` is the destination at the first position of `entries_2` whose destination
/// also occurs in `entries_1`.
pub open spec fn first_collision(
    entries_1: Seq<Option<usize>>,
    entries_2: Seq<Option<usize>>,
    dest: usize,
) -> bool {
    exists|j: int|
        0 <= j < entries_2.len() && #[trigger] entries_2[j] == Some(dest) && entries_1.contains(
            Some(dest),
        ) && forall|k: int|
            0 <= k < j && entries_2[k] is Some ==> !entries_1.contains(#[trigger] entries_2[k])
}

/// The length of a row combined from two maps: one past the larger `max`.
pub open spec fn combined_len(map_1: ColumnMap, map_2: ColumnMap) -> int {
    if map_1.spec_max() >= map_2.spec_max() {
        map_1.spec_max() + 1
    } else {
        map_2.spec_max() + 1
    }
}

/// In distinct entries, the source found for a destination is the one that maps to it.
pub proof fn lemma_source_of(entries: Seq<Option<usize>>, s: int)
    requires
        distinct_dests(entries),
        0 <= s < entries.len(),
        entries[s] is Some,
    ensures
        maps_to(entries, entries[s]->0 as int),
        source_of(entries, entries[s]->0 as int) == s,
{
    let d = entries[s]->0;
    assert(entries[s] == Some(d as int as usize));
    let k = source_of(entries, d as int);
    assert(entries[k] == entries[s]);
}

/// At most one destination is the first collision of two entry sequences.
pub proof fn lemma_first_collision_unique(
    entries_1: Seq<Option<usize>>,
    entries_2: Seq<Option<usize>>,
    d1: usize,
    d2: usize,
)
    requires
        first_collision(entries_1, entries_2, d1),
        first_collision(entries_1, entries_2, d2),
    ensures
        d1 == d2,
{
    let j1 = choose|j: int|
        0 <= j < entries_2.len() && #[trigger] entries_2[j] == Some(d1) && entries_1.contains(
            Some(d1),
        ) && forall|k: int|
            0 <= k < j && entries_2[k] is Some ==> !entries_1.contains(#[trigger] entries_2[k]);
    let j2 = choose|j: int|
        0 <= j < entries_2.len() && #[trigger] entries_2[j] == Some(d2) && entries_1.contains(
            Some(d2),
        ) && forall|k: int|
            0 <= k < j && entries_2[k] is Some ==> !entries_1.contains(#[trigger] entries_2[k]);
    if j1 < j2 {
        assert(entries_2[j1] is Some);
    } else if j2 < j1 {
        assert(entries_2[j2] is Some);
    }
}

/// A first collision means the destinations are not disjoint.
pub proof fn lemma_first_collision_not_disjoint(
    entries_1: Seq<Option<usize>>,
    entries_2: Seq<Option<usize>>,
    d: usize,
)
    requires
        first_collision(entries_1, entries_2, d),
    ensures
        !disjoint_dests(entries_1, entries_2),
{
    let j = choose|j: int|
        0 <= j < entries_2.len() && #[trigger] entries_2[j] == Some(d) && entries_1.contains(
            Some(d),
        ) && forall|k: int|
            0 <= k < j && entries_2[k] is Some ==> !entries_1.contains(#[trigger] entries_2[k]);
    let i = choose|i: int| 0 <= i < entries_1.len() && entries_1[i] == Some(d);
    assert(entries_1[i] == entries_2[j]);
}

/// The errors that combining rows with maps can give.
#[derive(Debug, Copy, Clone, PartialEq, Eq, Structural)]
#[non_exhaustive]
pub enum CombinationError {
    /// Both maps assign a value to the same destination index.
    CollisionError { dest: usize },
    /// The map is longer than the row.
    LengthError { map_len: usize, row_len: usize },
}

impl CombinationError {
    /// The text of the error.
    pub fn to_string(&self) -> (r: String)
        ensures
            r@ == match *self {
                CombinationError::CollisionError { dest } => "Collision at destination index "@
                    + decimal(dest as nat),
                CombinationError::LengthError { map_len, row_len } => "Map of length "@ + decimal(
                    map_len as nat,
                ) + " is longer than row of length "@ + decimal(row_len as nat),
            },
    {
        let mut out = String::new();
        match *self {
            CombinationError::CollisionError { dest } => {
                out.append("Collision at destination index ");
                push_decimal(&mut out, dest);
            },
            CombinationError::LengthError { map_len, row_len } => {
                out.append("Map of length ");
                push_decimal(&mut out, map_len);
                out.append(" is longer than row of length ");
                push_decimal(&mut out, row_len);
            },
        }
        out
    }

    /// Checks two maps for a destination that both use.
    fn check_collision(map_1: &ColumnMap, map_2: &ColumnMap) -> (r: Result<(), CombinationError>)
        ensures
            r is Ok <==> disjoint_dests(map_1@, map_2@),
            r matches Err(e) ==> (e matches CombinationError::CollisionError { dest }
                && first_collision(map_1@, map_2@, dest)),
    {
        let ghost e1 = map_1@;
        let ghost e2 = map_2@;
        let mut seen_indices: HashSet<usize> = HashSet::new();
        let mut i: usize = 0;
        while i < map_1.len()
            invariant
                e1 == map_1@,
                i <= e1.len(),
                forall|d: usize| #[trigger]
                    seen_indices@.contains(d) <==> e1.take(i as int).contains(Some(d)),
            decreases e1.len() - i,
        {
            let ghost prefix = e1.take(i as int);
            let ghost next = e1.take(i + 1);
            proof {
                assert(next == prefix.push(e1[i as int]));
            }
            let ghost seen_before = seen_indices@;
            if let Some(dest) = map_1.destination(i) {
                seen_indices.insert(dest);
                proof {
                    assert(seen_indices@ == seen_before.insert(dest));
                    assert(next[i as int] == Some(dest));
                }
            }
            proof {
                assert forall|d: usize| #[trigger]
                    seen_indices@.contains(d) <==> next.contains(Some(d)) by {
                    if next.contains(Some(d)) {
                        let k = choose|k: int| 0 <= k < next.len() && next[k] == Some(d);
                        if k < i {
                            assert(prefix[k] == next[k]);
                        }
                    }
                    if prefix.contains(Some(d)) {
                        let k = choose|k: int| 0 <= k < prefix.len() && prefix[k] == Some(d);
                        assert(next[k] == prefix[k]);
                    }
                }
            }
            i += 1;
        }
        proof {
            assert(e1.take(e1.len() as int) == e1);
        }
        let mut j: usize = 0;
        while j < map_2.len()
            invariant
                e1 == map_1@,
                e2 == map_2@,
                j <= e2.len(),
                forall|d: usize| #[trigger] seen_indices@.contains(d) <==> e1.contains(Some(d)),
                forall|k: int| 0 <= k < j && e2[k] is Some ==> !e1.contains(#[trigger] e2[k]),
            decreases e2.len() - j,
        {
            if let Some(dest) = map_2.destination(j) {
                if seen_indices.contains(&dest) {
                    proof {
                        assert(e2[j as int] == Some(dest));
                        assert(first_collision(e1, e2, dest));
                        lemma_first_collision_not_disjoint(e1, e2, dest);
                    }
                    return Err(CombinationError::CollisionError { dest });
                }
            }
            j += 1;
        }
        proof {
            assert forall|a: int, b: int|
                0 <= a < e1.len() && 0 <= b < e2.len() && e1[a] is Some implies e1[a] != e2[b] by {
                if e1[a] == e2[b] {
                    assert(e1.contains(e2[b]));
                }
            }
        }
        Ok(())
    }

    /// Checks that the map is no longer than the row.
    fn check_lengths<T>(row: &Row<T>, map: &ColumnMap) -> (r: Result<(), CombinationError>)
        ensures
            r == (if map@.len() <= row@.len() {
                Ok::<(), CombinationError>(())
            } else {
                Err(
                    CombinationError::LengthError {
                        map_len: map@.len() as usize,
                        row_len: row@.len() as usize,
                    },
                )
            }),
    {
        if map.len() <= row.len() {
            Ok(())
        } else {
            Err(CombinationError::LengthError { map_len: map.len(), row_len: row.len() })
        }
    }
}

/// An ordered collection of fields, such as one record of a CSV table.
#[derive(Clone, Debug, PartialEq)]
pub struct Row<T> {
    row: Vec<T>,
}

impl<T> View for Row<T> {
    type V = Seq<T>;

    closed spec fn view(&self) -> Seq<T> {
        self.row@
    }
}

impl<T> Row<T> {
    /// The number of fields.
    pub open spec fn spec_len(&self) -> usize {
        self@.len() as usize
    }

    /// Creates a row holding the given fields.
    pub fn new(row: Vec<T>) -> (r: Self)
        ensures
            r@ == row@,
    {
        Row { row }
    }

    /// The fields in order.
    pub fn iter(&self) -> (r: std::slice::Iter<'_, T>)
        ensures
            r.remaining() == self@.as_ref(),
    {
        self.row.as_slice().iter()
    }

    /// The number of fields.
    #[verifier::when_used_as_spec(spec_len)]
    pub fn len(&self) -> (r: usize)
        ensures
            r == self@.len(),
    {
        self.row.len()
    }

    /// The fields as a slice.
    pub fn as_slice(&self) -> (r: &[T])
        ensures
            r@ == self@,
    {
        self.row.as_slice()
    }

    /// The field at `index`, which must be in bounds.
    pub fn index(&self, index: usize) -> (r: &T)
        requires
            index < self@.len(),
        ensures
            *r == self@[index as int],
    {
        &self.row[index]
    }

    /// Reorders the row by `map`, as references: destination `d` holds the field of
    /// the source that maps to `d`, or `fallback` where none does; the result has
    /// `map.max() + 1` fields.
    ///
    /// Fails with `LengthError` when the map is longer than the row.
    pub fn reorder_ref<'a>(&'a self, map: &ColumnMap, fallback: &'a T) -> (r: Result<
        Row<&'a T>,
        CombinationError,
    >)
        ensures
            map@.len() > self@.len() ==> r == Err::<Row<&'a T>, CombinationError>(
                CombinationError::LengthError {
                    map_len: map@.len() as usize,
                    row_len: self@.len() as usize,
                },
            ),
            map@.len() <= self@.len() ==> (r matches Ok(out) && out@.len() == map.spec_max() + 1
                && forall|d: int|
                0 <= d < out@.len() ==> *#[trigger] out@[d] == reordered(map@, self@, *fallback, d)),
    {
        proof {
            use_type_invariant(map);
        }
        CombinationError::check_lengths(self, map)?;

        let dest_len: usize = map.max() + 1;
        let mut dest_buffer: Vec<Option<&T>> = Self::empty_buffer(dest_len);

        Self::apply_map(map, self, &mut dest_buffer);

        Ok(Row::new(Self::buffer_to_vec_ref(dest_buffer, fallback)))
    }

    /// Combines two rows by two maps, as references: destination `d` holds the field
    /// that `map_1` places there from `row_1`, else the one that `map_2` places there
    /// from `row_2`, else `fallback`; the result has one field more than the larger
    /// `max` of the two maps.
    ///
    /// Fails with `LengthError` when `map_1` is longer than `row_1`, else when `map_2`
    /// is longer than `row_2`; else with `CollisionError` at the first destination of
    /// `map_2` that `map_1` also uses.
    pub fn combine_ref<'a>(
        row_1: &'a Row<T>,
        map_1: &ColumnMap,
        row_2: &'a Row<T>,
        map_2: &ColumnMap,
        fallback: &'a T,
    ) -> (r: Result<Row<&'a T>, CombinationError>)
        ensures
            map_1@.len() > row_1@.len() ==> r == Err::<Row<&'a T>, CombinationError>(
                CombinationError::LengthError {
                    map_len: map_1@.len() as usize,
                    row_len: row_1@.len() as usize,
                },
            ),
            map_1@.len() <= row_1@.len() && map_2@.len() > row_2@.len() ==> r == Err::<
                Row<&'a T>,
                CombinationError,
            >(
                CombinationError::LengthError {
                    map_len: map_2@.len() as usize,
                    row_len: row_2@.len() as usize,
                },
            ),
            map_1@.len() <= row_1@.len() && map_2@.len() <= row_2@.len() && !disjoint_dests(
                map_1@,
                map_2@,
            ) ==> (r matches Err(CombinationError::CollisionError { dest }) && first_collision(
                map_1@,
                map_2@,
                dest,
            )),
            map_1@.len() <= row_1@.len() && map_2@.len() <= row_2@.len() && disjoint_dests(
                map_1@,
                map_2@,
            ) ==> (r matches Ok(out) && out@.len() == combined_len(*map_1, *map_2) && forall|d: int|
                0 <= d < out@.len() ==> *#[trigger] out@[d] == combined(
                    map_1@,
                    row_1@,
                    map_2@,
                    row_2@,
                    *fallback,
                    d,
                )),
    {
        proof {
            use_type_invariant(map_1);
            use_type_invariant(map_2);
        }
        CombinationError::check_lengths(row_1, map_1)?;
        CombinationError::check_lengths(row_2, map_2)?;
        CombinationError::check_collision(map_1, map_2)?;

        let dest_len: usize = usize::max(map_1.max(), map_2.max()) + 1;
        let mut dest_buffer: Vec<Option<&T>> = Self::empty_buffer(dest_len);

        Self::apply_map(map_1, row_1, &mut dest_buffer);
        let ghost after_first = dest_buffer@;
        Self::apply_map(map_2, row_2, &mut dest_buffer);
        proof {
            assert forall|d: int| 0 <= d < dest_len && maps_to(map_1@, d) implies !maps_to(
                map_2@,
                d,
            ) by {
                let i = choose|i: int| 0 <= i < map_1@.len() && map_1@[i] == Some(d as usize);
                if maps_to(map_2@, d) {
                    let j = choose|j: int| 0 <= j < map_2@.len() && map_2@[j] == Some(d as usize);
                    assert(map_1@[i] == map_2@[j]);
                }
            }
        }
        Ok(Row::new(Self::buffer_to_vec_ref(dest_buffer, fallback)))
    }

    /// A buffer of `len` empty slots.
    fn empty_buffer<'a>(len: usize) -> (r: Vec<Option<&'a T>>)
        ensures
            r@ == Seq::new(len as nat, |i: int| None::<&'a T>),
    {
        let mut buffer: Vec<Option<&T>> = Vec::new();
        let mut k: usize = 0;
        while k < len
            invariant
                k <= len,
                buffer@ == Seq::new(k as nat, |i: int| None::<&'a T>),
            decreases len - k,
        {
            buffer.push(None);
            k += 1;
        }
        buffer
    }

    /// Fills each empty slot of the buffer with `fallback`.
    fn buffer_to_vec_ref<'a>(dest_buffer: Vec<Option<&'a T>>, fallback: &'a T) -> (r: Vec<&'a T>)
        ensures
            r@.len() == dest_buffer@.len(),
            forall|i: int|
                0 <= i < r@.len() ==> #[trigger] r@[i] == match dest_buffer@[i] {
                    Some(t) => t,
                    None => fallback,
                },
    {
        let mut out: Vec<&T> = Vec::new();
        let mut i: usize = 0;
        while i < dest_buffer.len()
            invariant
                i <= dest_buffer@.len(),
                out@.len() == i,
                forall|k: int|
                    0 <= k < i ==> #[trigger] out@[k] == match dest_buffer@[k] {
                        Some(t) => t,
                        None => fallback,
                    },
            decreases dest_buffer@.len() - i,
        {
            match dest_buffer[i] {
                Some(t) => out.push(t),
                None => out.push(fallback),
            }
            i += 1;
        }
        out
    }

    /// Writes into `dest_buffer`, at each destination of `map`, a reference to the
    /// value of its source in `src_row`; other slots are left alone.
    fn apply_map<'a>(map: &ColumnMap, src_row: &'a Row<T>, dest_buffer: &mut Vec<Option<&'a T>>)
        requires
            map@.len() <= src_row@.len(),
            forall|i: int|
                0 <= i < map@.len() && map@[i] is Some ==> map@[i]->0 < old(dest_buffer)@.len(),
        ensures
            final(dest_buffer)@.len() == old(dest_buffer)@.len(),
            forall|d: int|
                0 <= d < old(dest_buffer)@.len() ==> #[trigger] final(dest_buffer)@[d] == (if maps_to(
                    map@,
                    d,
                ) {
                    Some(&src_row@[source_of(map@, d)])
                } else {
                    old(dest_buffer)@[d]
                }),
    {
        proof {
            use_type_invariant(map);
        }
        let ghost entries = map@;
        let ghost initial = dest_buffer@;
        let buffer_len: usize = dest_buffer.len();
        let mut src: usize = 0;
        while src < map.len()
            invariant
                map.wf(),
                entries == map@,
                src <= entries.len(),
                entries.len() <= src_row@.len(),
                forall|i: int|
                    0 <= i < entries.len() && entries[i] is Some ==> entries[i]->0 < initial.len(),
                initial.len() == buffer_len,
                dest_buffer@.len() == initial.len(),
                forall|d: int|
                    0 <= d < initial.len() ==> #[trigger] dest_buffer@[d] == (if maps_to(
                        entries.take(src as int),
                        d,
                    ) {
                        Some(&src_row@[source_of(entries, d)])
                    } else {
                        initial[d]
                    }),
            decreases entries.len() - src,
        {
            let ghost before = dest_buffer@;
            let ghost prefix = entries.take(src as int);
            let ghost next = entries.take(src + 1);
            proof {
                assert(next == prefix.push(entries[src as int]));
            }
            if let Some(dest) = map.destination(src) {
                proof {
                    lemma_source_of(entries, src as int);
                }
                dest_buffer[dest] = Some(&src_row.row[src]);
                proof {
                    assert forall|d: int| 0 <= d < initial.len() implies #[trigger] dest_buffer@[d] == (
                    if maps_to(next, d) {
                        Some(&src_row@[source_of(entries, d)])
                    } else {
                        initial[d]
                    }) by {
                        if d == dest {
                            assert(next[src as int] == Some(d as usize));
                        } else {
                            assert(before[d] == dest_buffer@[d]);
                            if maps_to(next, d) {
                                let k = choose|k: int| 0 <= k < next.len() && next[k] == Some(d as usize);
                                assert(prefix[k] == next[k]);
                            }
                            if maps_to(prefix, d) {
                                let k = choose|k: int| 0 <= k < prefix.len() && prefix[k] == Some(d as usize);
                                assert(next[k] == prefix[k]);
                            }
                        }
                    }
                }
            } else {
                proof {
                    assert(next[src as int] is None);
                    assert forall|d: int| 0 <= d < initial.len() implies #[trigger] dest_buffer@[d] == (
                    if maps_to(next, d) {
                        Some(&src_row@[source_of(entries, d)])
                    } else {
                        initial[d]
                    }) by {
                        if maps_to(next, d) {
                            let k = choose|k: int| 0 <= k < next.len() && next[k] == Some(d as usize);
                            assert(prefix[k] == next[k]);
                        }
                        if maps_to(prefix, d) {
                            let k = choose|k: int| 0 <= k < prefix.len() && prefix[k] == Some(d as usize);
                            assert(next[k] == prefix[k]);
                        }
                    }
                }
            }
            src += 1;
        }
        proof {
            assert(entries.take(entries.len() as int) == entries);
        }
    }
}

/// The texts of the fields of a row of strings.
pub open spec fn field_texts(fields: Seq<String>) -> Seq<Seq<char>> {
    Seq::new(fields.len(), |i: int| fields[i]@)
}

impl Row<String> {
    /// The text of the row: its fields separated by `", "`.
    pub fn to_string(&self) -> (r: String)
        ensures
            r@ == joined(field_texts(self@), seq![',', ' ']),
    {
        let ghost pieces = field_texts(self@);
        let mut out = String::new();
        let mut i: usize = 0;
        while i < self.row.len()
            invariant
                i <= self@.len(),
                pieces == field_texts(self@),
                out@ == joined(pieces.take(i as int), seq![',', ' ']),
            decreases self@.len() - i,
        {
            proof {
                assert(pieces.take(i + 1).drop_last() == pieces.take(i as int));
                reveal_strlit(", ");
            }
            if i > 0 {
                out.append(", ");
            }
            out.append(self.row[i].as_str());
            proof {
                assert(pieces.take(i + 1)[i as int] == self@[i as int]@);
                if i == 0 {
                    assert(pieces.take(1) == seq![pieces[0]]);
                }
            }
            i += 1;
        }
        proof {
            assert(pieces.take(self@.len() as int) == pieces);
        }
        out
    }
}

/// `t` is a value that `T::default()` can return.
pub open spec fn is_default<T: Default>(t: T) -> bool {
    call_ensures(T::default, (), t)
}

/// `out` is what an owned reordering holds at destination `d`: a clone of the field of
/// the source that maps to `d`, or a default value where none does.
pub open spec fn reordered_owned<T: Clone + Default>(
    entries: Seq<Option<usize>>,
    row: Seq<T>,
    d: int,
    out: T,
) -> bool {
    if maps_to(entries, d) {
        cloned(row[source_of(entries, d)], out)
    } else {
        is_default(out)
    }
}

/// `out` is what an owned combination holds at destination `d`: a clone of the field
/// that the first map places there, else of the one that the second places there,
/// else a default value.
pub open spec fn combined_owned<T: Clone + Default>(
    entries_1: Seq<Option<usize>>,
    row_1: Seq<T>,
    entries_2: Seq<Option<usize>>,
    row_2: Seq<T>,
    d: int,
    out: T,
) -> bool {
    if maps_to(entries_1, d) {
        cloned(row_1[source_of(entries_1, d)], out)
    } else {
        reordered_owned(entries_2, row_2, d, out)
    }
}

impl<T: Clone + Default> Row<T> {
    /// Combines two rows by two maps into owned fields: destination `d` holds a clone
    /// of the field that `map_1` places there from `row_1`, else of the one that
    /// `map_2` places there from `row_2`, else `T::default()`; the result has one
    /// field more than the larger `max` of the two maps.
    ///
    /// Fails as [`Row::combine_ref`] does.
    pub fn combine(row_1: &Row<T>, map_1: &ColumnMap, row_2: &Row<T>, map_2: &ColumnMap) -> (r:
        Result<Self, CombinationError>)
        ensures
            map_1@.len() > row_1@.len() ==> r == Err::<Self, CombinationError>(
                CombinationError::LengthError {
                    map_len: map_1@.len() as usize,
                    row_len: row_1@.len() as usize,
                },
            ),
            map_1@.len() <= row_1@.len() && map_2@.len() > row_2@.len() ==> r == Err::<
                Self,
                CombinationError,
            >(
                CombinationError::LengthError {
                    map_len: map_2@.len() as usize,
                    row_len: row_2@.len() as usize,
                },
            ),
            map_1@.len() <= row_1@.len() && map_2@.len() <= row_2@.len() && !disjoint_dests(
                map_1@,
                map_2@,
            ) ==> (r matches Err(CombinationError::CollisionError { dest }) && first_collision(
                map_1@,
                map_2@,
                dest,
            )),
            map_1@.len() <= row_1@.len() && map_2@.len() <= row_2@.len() && disjoint_dests(
                map_1@,
                map_2@,
            ) ==> (r matches Ok(out) && out@.len() == combined_len(*map_1, *map_2) && forall|d: int|
                0 <= d < out@.len() ==> combined_owned(
                    map_1@,
                    row_1@,
                    map_2@,
                    row_2@,
                    d,
                    #[trigger] out@[d],
                )),
    {
        proof {
            use_type_invariant(map_1);
            use_type_invariant(map_2);
        }
        CombinationError::check_lengths(row_1, map_1)?;
        CombinationError::check_lengths(row_2, map_2)?;
        CombinationError::check_collision(map_1, map_2)?;

        let dest_len: usize = usize::max(map_1.max(), map_2.max()) + 1;
        let mut dest_buffer: Vec<Option<&T>> = Self::empty_buffer(dest_len);

        Self::apply_map(map_1, row_1, &mut dest_buffer);
        Self::apply_map(map_2, row_2, &mut dest_buffer);
        proof {
            assert forall|d: int| 0 <= d < dest_len && maps_to(map_1@, d) implies !maps_to(
                map_2@,
                d,
            ) by {
                let i = choose|i: int| 0 <= i < map_1@.len() && map_1@[i] == Some(d as usize);
                if maps_to(map_2@, d) {
                    let j = choose|j: int| 0 <= j < map_2@.len() && map_2@[j] == Some(d as usize);
                    assert(map_1@[i] == map_2@[j]);
                }
            }
        }
        Ok(Row::new(Self::buffer_to_vec(dest_buffer)))
    }

    /// Reorders the row by `map` into owned fields: destination `d` holds a clone of
    /// the field of the source that maps to `d`, or `T::default()` where none does;
    /// the result has `map.max() + 1` fields.
    ///
    /// Fails with `LengthError` when the map is longer than the row.
    pub fn reorder(&self, map: &ColumnMap) -> (r: Result<Self, CombinationError>)
        ensures
            map@.len() > self@.len() ==> r == Err::<Self, CombinationError>(
                CombinationError::LengthError {
                    map_len: map@.len() as usize,
                    row_len: self@.len() as usize,
                },
            ),
            map@.len() <= self@.len() ==> (r matches Ok(out) && out@.len() == map.spec_max() + 1
                && forall|d: int|
                0 <= d < out@.len() ==> reordered_owned(map@, self@, d, #[trigger] out@[d])),
    {
        proof {
            use_type_invariant(map);
        }
        CombinationError::check_lengths(self, map)?;

        let dest_len: usize = map.max() + 1;
        let mut dest_buffer: Vec<Option<&T>> = Self::empty_buffer(dest_len);

        Self::apply_map(map, self, &mut dest_buffer);

        Ok(Row::new(Self::buffer_to_vec(dest_buffer)))
    }

    /// Turns the buffer into owned fields: a clone of each filled slot, a default
    /// value for each empty one.
    fn buffer_to_vec(dest_buffer: Vec<Option<&T>>) -> (r: Vec<T>)
        ensures
            r@.len() == dest_buffer@.len(),
            forall|i: int|
                0 <= i < r@.len() ==> match dest_buffer@[i] {
                    Some(t) => cloned(*t, #[trigger] r@[i]),
                    None => is_default(r@[i]),
                },
    {
        let mut out: Vec<T> = Vec::new();
        let mut i: usize = 0;
        while i < dest_buffer.len()
            invariant
                i <= dest_buffer@.len(),
                out@.len() == i,
                forall|k: int|
                    0 <= k < i ==> match dest_buffer@[k] {
                        Some(t) => cloned(*t, #[trigger] out@[k]),
                        None => is_default(out@[k]),
                    },
            decreases dest_buffer@.len() - i,
        {
            match dest_buffer[i] {
                Some(t) => out.push(t.clone()),
                None => out.push(T::default()),
            }
            i += 1;
        }
        out
    }
}

impl<'a, T: Clone> Row<&'a T> {
    /// An owned row whose fields are clones of the referenced ones.
    pub fn into_owned(&self) -> (r: Row<T>)
        ensures
            r@.len() == self@.len(),
            forall|i: int| 0 <= i < r@.len() ==> cloned(*self@[i], #[trigger] r@[i]),
    {
        let mut owned: Vec<T> = Vec::new();
        let mut i: usize = 0;
        while i < self.row.len()
            invariant
                i <= self@.len(),
                owned@.len() == i,
                forall|k: int| 0 <= k < i ==> cloned(*self@[k], #[trigger] owned@[k]),
            decreases self@.len() - i,
        {
            let t: &T = self.row[i];
            owned.push(t.clone());
            i += 1;
        }
        Row::new(owned)
    }
}

} // verus!

//! The column map: from source indices to destination indices.

use crate::text::{decimal, joined, push_decimal};
use std::collections::HashSet;
use vstd::prelude::*;
use vstd::string::StringExecFns;
use vstd::std_specs::iter::IteratorSpec;

verus! {

broadcast use vstd::std_specs::hash::group_hash_axioms;

/// No destination index occurs twice among the entries.
pub open spec fn distinct_dests(s: Seq<Option<usize>>) -> bool {
    forall|i: int, j: int| 0 <= i < j < s.len() && s[i] is Some ==> s[i] != s[j]
}

/// Every destination index among the entries is at most `bound`.
pub open spec fn dests_at_most(s: Seq<Option<usize>>, bound: usize) -> bool {
    forall|i: int| 0 <= i < s.len() && s[i] is Some ==> s[i]->0 <= bound
}

/// The largest destination index among the entries, `0` where there is none.
pub open spec fn max_dest(s: Seq<Option<usize>>) -> usize
    decreases s.len(),
{
    if s.len() == 0 {
        0
    } else {
        let m = max_dest(s.drop_last());
        match s.last() {
            Some(d) => if d > m { d } else { m },
            None => m,
        }
    }
}

/// `dest` is the destination at the first position `j` whose destination already
/// occurred before `j`: the one that a scan from the front meets twice first.
pub open spec fn first_repeat(s: Seq<Option<usize>>, dest: usize) -> bool {
    exists|j: int|
        0 <= j < s.len() && #[trigger] s[j] == Some(dest) && distinct_dests(s.take(j))
            && s.take(j).contains(Some(dest))
}

/// The largest destination index is at least every destination, and it is either `0`
/// or one of the destinations.
pub proof fn lemma_max_dest(s: Seq<Option<usize>>)
    ensures
        dests_at_most(s, max_dest(s)),
        max_dest(s) == 0 || s.contains(Some(max_dest(s))),
    decreases s.len(),
{
    if s.len() > 0 {
        let t = s.drop_last();
        lemma_max_dest(t);
        assert forall|i: int| 0 <= i < s.len() && s[i] is Some implies s[i]->0 <= max_dest(s) by {
            if i < s.len() - 1 {
                assert(t[i] == s[i]);
            }
        }
        if max_dest(s) != 0 && max_dest(s) == max_dest(t) && s.last() != Some(max_dest(s)) {
            let k = choose|k: int| 0 <= k < t.len() && t[k] == Some(max_dest(t));
            assert(s[k] == t[k]);
        }
        if s.last() == Some(max_dest(s)) {
            assert(s[s.len() - 1] == Some(max_dest(s)));
        }
    }
}

/// At most one position first repeats a destination: a scan meets only one such
/// position, so the destination it names is determined by the entries.
pub proof fn lemma_first_repeat_unique(s: Seq<Option<usize>>, d1: usize, d2: usize)
    requires
        first_repeat(s, d1),
        first_repeat(s, d2),
    ensures
        d1 == d2,
{
    let j1 = choose|j: int|
        0 <= j < s.len() && #[trigger] s[j] == Some(d1) && distinct_dests(s.take(j))
            && s.take(j).contains(Some(d1));
    let j2 = choose|j: int|
        0 <= j < s.len() && #[trigger] s[j] == Some(d2) && distinct_dests(s.take(j))
            && s.take(j).contains(Some(d2));
    if j1 < j2 {
        let k = choose|k: int| 0 <= k < j1 && s.take(j1)[k] == Some(d1);
        assert(s.take(j2)[k] == s.take(j2)[j1]);
    } else if j2 < j1 {
        let k = choose|k: int| 0 <= k < j2 && s.take(j2)[k] == Some(d2);
        assert(s.take(j1)[k] == s.take(j1)[j2]);
    }
}

/// A repeated destination means the entries are not distinct.
pub proof fn lemma_first_repeat_not_distinct(s: Seq<Option<usize>>, d: usize)
    requires
        first_repeat(s, d),
    ensures
        !distinct_dests(s),
{
    let j = choose|j: int|
        0 <= j < s.len() && #[trigger] s[j] == Some(d) && distinct_dests(s.take(j))
            && s.take(j).contains(Some(d));
    let k = choose|k: int| 0 <= k < j && s.take(j)[k] == Some(d);
    assert(s[k] == s[j]);
}

/// The entries of the identity map on `length` columns.
pub open spec fn identity_entries(length: usize) -> Seq<Option<usize>> {
    Seq::new(length as nat, |i: int| Some(i as usize))
}

/// The `max` that the identity map on `length` columns records: `length - 1`, or `0`
/// where `length` is `0`.
pub open spec fn identity_max(length: usize) -> usize {
    if length == 0 {
        0
    } else {
        (length - 1) as usize
    }
}

/// The length of the range `start..end`, `0` when it is reversed.
pub open spec fn saturating_len(start: usize, end: usize) -> nat {
    if start <= end { (end - start) as nat } else { 0 }
}

/// The entries of the sequential map: `None` before `src_start`, then `dest_start`,
/// `dest_start + 1`, ... up to source `src_end` (excluded).
pub open spec fn sequential_entries(src_start: usize, src_end: usize, dest_start: usize) -> Seq<
    Option<usize>,
> {
    Seq::new(
        src_end as nat,
        |i: int|
            if i < src_start {
                None
            } else {
                Some((dest_start + (i - src_start)) as usize)
            },
    )
}

/// The largest destination of a sequential map: `dest_start + (src_end - src_start) - 1`,
/// or `0` where the range is empty and the map has no destination.
pub open spec fn sequential_max(src_start: usize, src_end: usize, dest_start: usize) -> usize {
    if src_start >= src_end {
        0
    } else {
        (dest_start + (src_end - src_start) - 1) as usize
    }
}

/// Entries without any destination have largest destination `0`.
pub proof fn lemma_no_dests_max(s: Seq<Option<usize>>)
    requires
        forall|i: int| 0 <= i < s.len() ==> s[i] is None,
    ensures
        max_dest(s) == 0,
    decreases s.len(),
{
    if s.len() > 0 {
        lemma_no_dests_max(s.drop_last());
        assert(s[s.len() - 1] is None);
    }
}

/// The `max` of a sequential map is its largest destination.
pub proof fn lemma_sequential_max(src_start: usize, src_end: usize, dest_start: usize)
    requires
        src_start <= src_end,
        dest_start + (src_end - src_start) <= usize::MAX,
    ensures
        max_dest(sequential_entries(src_start, src_end, dest_start)) == sequential_max(
            src_start,
            src_end,
            dest_start,
        ),
    decreases src_end,
{
    let e = sequential_entries(src_start, src_end, dest_start);
    if src_start == src_end {
        assert forall|i: int| 0 <= i < e.len() implies e[i] is None by {}
        lemma_no_dests_max(e);
    } else {
        let shorter = sequential_entries(src_start, (src_end - 1) as usize, dest_start);
        assert(e.drop_last() == shorter);
        lemma_sequential_max(src_start, (src_end - 1) as usize, dest_start);
    }
}

/// The text of one entry: `"src -> dest"`, or `"src -> ∅"` for a dropped source.
pub open spec fn entry_text(src: nat, entry: Option<usize>) -> Seq<char> {
    decimal(src) + seq![' ', '-', '>', ' '] + match entry {
        Some(dest) => decimal(dest as nat),
        None => seq!['∅'],
    }
}

/// The texts of all entries, in source order.
pub open spec fn entry_texts(s: Seq<Option<usize>>) -> Seq<Seq<char>> {
    Seq::new(s.len(), |i: int| entry_text(i as nat, s[i]))
}

/// The text of a map: the texts of its entries separated by `", "`.
pub open spec fn map_text(s: Seq<Option<usize>>) -> Seq<char> {
    joined(entry_texts(s), seq![',', ' '])
}

/// A reordering of the columns of a row.
///
/// Entry `i` is `Some(j)` when the value at source index `i` moves to destination
/// index `j`, and `None` when it is dropped. No destination occurs twice, and
/// `max` is the largest destination (`0` for a map without destinations).
#[derive(Debug, PartialEq)]
pub struct ColumnMap {
    /// The source-destination mapping.
    map: Vec<Option<usize>>,
    /// The largest destination index.
    max: usize,
}

impl Clone for ColumnMap {
    /// A copy of the map, with the same entries and `max`.
    fn clone(&self) -> (r: Self)
        ensures
            r@ == self@,
            r.spec_max() == self.spec_max(),
    {
        proof {
            use_type_invariant(self);
        }
        let mut map: Vec<Option<usize>> = Vec::new();
        let mut i: usize = 0;
        while i < self.map.len()
            invariant
                i <= self.map@.len(),
                map@ == self.map@.take(i as int),
            decreases self.map@.len() - i,
        {
            map.push(self.map[i]);
            i += 1;
            proof {
                assert(map@ == self.map@.take(i as int));
            }
        }
        proof {
            assert(map@ == self.map@);
        }
        ColumnMap { map, max: self.max }
    }
}

impl View for ColumnMap {
    type V = Seq<Option<usize>>;

    closed spec fn view(&self) -> Seq<Option<usize>> {
        self.map@
    }
}

impl ColumnMap {
    /// The largest destination index that the map records.
    pub closed spec fn spec_max(&self) -> usize {
        self.max
    }

    /// The number of source indices that the map covers.
    pub open spec fn spec_len(&self) -> usize {
        self@.len() as usize
    }

    /// What every map keeps: distinct destinations, a `max` that is the largest of
    /// them (`0` where there is none), and a `max` below `usize::MAX`, so that
    /// `max + 1` columns can be allocated.
    pub open spec fn wf(&self) -> bool {
        &&& distinct_dests(self@)
        &&& dests_at_most(self@, self.spec_max())
        &&& self.spec_max() == max_dest(self@)
        &&& self.spec_max() < usize::MAX
    }

    /// Every map is well formed.
    #[verifier::type_invariant]
    pub open spec fn valid(&self) -> bool {
        self.wf()
    }

    /// Creates a map from a vector whose index is the source and whose value is the
    /// destination (`None` drops the source).
    ///
    /// Fails with `DuplicateIndex` (the first destination that a scan from the front
    /// meets twice) when a destination repeats, and otherwise with `IndexTooLarge`
    /// when the largest destination is `usize::MAX`.
    pub fn new(vec: Vec<Option<usize>>) -> (r: Result<Self, MapError>)
        ensures
            match r {
                Ok(m) => {
                    &&& distinct_dests(vec@)
                    &&& max_dest(vec@) < usize::MAX
                    &&& m@ == vec@
                    &&& m.spec_max() == max_dest(vec@)
                    &&& m.wf()
                },
                Err(MapError::DuplicateIndex { dest }) => !distinct_dests(vec@) && first_repeat(
                    vec@,
                    dest,
                ),
                Err(MapError::IndexTooLarge) => distinct_dests(vec@) && max_dest(vec@)
                    == usize::MAX,
                Err(MapError::RangeError { .. }) => false,
            },
    {
        let max: usize = Self::max_dest_index(vec.as_slice());
        MapError::check_vec(vec.as_slice())?;
        MapError::check_index(max)?;
        proof {
            lemma_max_dest(vec@);
        }
        Ok(ColumnMap { map: vec, max })
    }

    /// The identity map on `length` columns: `0 -> 0`, ..., `length - 1 -> length - 1`.
    pub fn identity(length: usize) -> (r: Self)
        ensures
            r@ == identity_entries(length),
            r.spec_max() == identity_max(length),
            r.spec_max() == max_dest(r@),
            r.wf(),
    {
        let mut map: Vec<Option<usize>> = Vec::new();
        let mut i: usize = 0;
        while i < length
            invariant
                i <= length,
                map@ == identity_entries(i),
            decreases length - i,
        {
            map.push(Some(i));
            i += 1;
            proof {
                assert(map@ == identity_entries(i));
            }
        }
        let max: usize = length.saturating_sub(1);
        proof {
            assert(identity_entries(length) == sequential_entries(0, length, 0));
            lemma_sequential_max(0, length, 0);
        }
        ColumnMap { map, max }
    }

    /// The map that sends `src_start` to `dest_start`, `src_start + 1` to
    /// `dest_start + 1`, and so on up to `src_end` (excluded); the sources before
    /// `src_start` are dropped. Its `max` is the last destination, or `0` where the
    /// range is empty.
    ///
    /// Fails with `RangeError` when `src_start > src_end`, and otherwise with
    /// `IndexTooLarge` when `dest_start + (src_end - src_start)` exceeds `usize::MAX`.
    pub fn sequential(src_start: usize, src_end: usize, dest_start: usize) -> (r: Result<
        Self,
        MapError,
    >)
        ensures
            src_start > src_end ==> r == Err::<Self, MapError>(
                MapError::RangeError { src_start, src_end },
            ),
            src_start <= src_end && dest_start + (src_end - src_start) > usize::MAX ==> r
                == Err::<Self, MapError>(MapError::IndexTooLarge),
            src_start <= src_end && dest_start + (src_end - src_start) <= usize::MAX ==> (r matches Ok(
                m,
            ) && m@ == sequential_entries(src_start, src_end, dest_start) && m.spec_max()
                == sequential_max(src_start, src_end, dest_start) && m.spec_max() == max_dest(m@)
                && m.wf()),
    {
        MapError::check_range(src_start, src_end)?;
        MapError::check_overflow(src_start, src_end, dest_start)?;

        let max: usize = if src_start == src_end {
            0
        } else {
            dest_start + (src_end - src_start) - 1
        };

        let mut map: Vec<Option<usize>> = Vec::new();
        let mut k: usize = 0;
        while k < src_end
            invariant
                k <= src_end,
                map@ == Seq::new(k as nat, |i: int| None::<usize>),
            decreases src_end - k,
        {
            map.push(None);
            k += 1;
        }

        let mut dest_index: usize = dest_start;
        let mut src_index: usize = src_start;
        while src_index < src_end
            invariant
                src_start <= src_index <= src_end,
                dest_start + (src_end - src_start) <= usize::MAX,
                dest_index == dest_start + (src_index - src_start),
                map@.len() == src_end,
                forall|i: int|
                    0 <= i < src_end ==> #[trigger] map@[i] == (if src_start <= i < src_index {
                        Some((dest_start + (i - src_start)) as usize)
                    } else {
                        None
                    }),
            decreases src_end - src_index,
        {
            map[src_index] = Some(dest_index);
            dest_index += 1;
            src_index += 1;
        }
        proof {
            let e = map@;
            assert(e == sequential_entries(src_start, src_end, dest_start));
            assert forall|a: int, b: int|
                0 <= a < b < e.len() && e[a] is Some implies e[a] != e[b] by {}
            lemma_sequential_max(src_start, src_end, dest_start);
        }
        Ok(ColumnMap { map, max })
    }

    /// A pair of maps that splices two rows: columns `src_start_1..src_end_1` of the
    /// first row followed by columns `src_start_2..src_end_2` of the second.
    ///
    /// Fails with `IndexTooLarge` when the two ranges together are longer than
    /// `usize::MAX`, and otherwise with the `RangeError` of the first reversed range.
    pub fn splice(src_start_1: usize, src_end_1: usize, src_start_2: usize, src_end_2: usize) -> (r:
        Result<(Self, Self), MapError>)
        ensures
            ({
                let len_1 = saturating_len(src_start_1, src_end_1);
                let len_2 = saturating_len(src_start_2, src_end_2);
                if len_1 + len_2 > usize::MAX {
                    r == Err::<(Self, Self), MapError>(MapError::IndexTooLarge)
                } else if src_start_1 > src_end_1 {
                    r == Err::<(Self, Self), MapError>(
                        MapError::RangeError { src_start: src_start_1, src_end: src_end_1 },
                    )
                } else if src_start_2 > src_end_2 {
                    r == Err::<(Self, Self), MapError>(
                        MapError::RangeError { src_start: src_start_2, src_end: src_end_2 },
                    )
                } else {
                    r matches Ok((m1, m2)) && m1@ == sequential_entries(src_start_1, src_end_1, 0)
                        && m1.spec_max() == sequential_max(src_start_1, src_end_1, 0) && m1.wf()
                        && m2@ == sequential_entries(
                        src_start_2,
                        src_end_2,
                        (src_end_1 - src_start_1) as usize,
                    ) && m2.spec_max() == sequential_max(
                        src_start_2,
                        src_end_2,
                        (src_end_1 - src_start_1) as usize,
                    ) && m2.wf()
                }
            }),
    {
        let len_1: usize = src_end_1.saturating_sub(src_start_1);
        let len_2: usize = src_end_2.saturating_sub(src_start_2);

        if len_1.checked_add(len_2).is_none() {
            return Err(MapError::IndexTooLarge);
        }
        let map_1: ColumnMap = Self::sequential(src_start_1, src_end_1, 0)?;
        let map_2: ColumnMap = Self::sequential(src_start_2, src_end_2, len_1)?;

        Ok((map_1, map_2))
    }

    /// The destination of source `src`; `None` when `src` is out of bounds or dropped.
    pub fn destination(&self, src: usize) -> (r: Option<usize>)
        ensures
            r == (if src < self@.len() { self@[src as int] } else { None }),
    {
        if src < self.map.len() {
            self.map[src]
        } else {
            None
        }
    }

    /// The entries in source order.
    pub fn iter(&self) -> (r: std::slice::Iter<'_, Option<usize>>)
        ensures
            r.remaining() == self@.as_ref(),
    {
        self.map.as_slice().iter()
    }

    /// The number of source indices that the map covers.
    #[verifier::when_used_as_spec(spec_len)]
    pub fn len(&self) -> (r: usize)
        ensures
            r == self@.len(),
    {
        self.map.len()
    }

    /// The entries, indexed by source.
    pub fn as_slice(&self) -> (r: &[Option<usize>])
        ensures
            r@ == self@,
    {
        self.map.as_slice()
    }

    /// The largest destination index (`0` for a map without destinations).
    #[verifier::when_used_as_spec(spec_max)]
    pub fn max(&self) -> (r: usize)
        ensures
            r == self.spec_max(),
    {
        self.max
    }

    /// The entry of source `src`, which must be in bounds.
    pub fn index(&self, src: usize) -> (r: &Option<usize>)
        requires
            src < self@.len(),
        ensures
            *r == self@[src as int],
    {
        &self.map[src]
    }

    /// The text of the map, such as `"0 -> 1, 1 -> 0, 2 -> ∅"`.
    pub fn to_string(&self) -> (r: String)
        ensures
            r@ == map_text(self@),
    {
        let ghost pieces = entry_texts(self@);
        let mut out = String::new();
        let mut src: usize = 0;
        while src < self.map.len()
            invariant
                src <= self@.len(),
                pieces == entry_texts(self@),
                out@ == joined(pieces.take(src as int), seq![',', ' ']),
            decreases self@.len() - src,
        {
            let ghost before = out@;
            proof {
                assert(pieces.take(src + 1).drop_last() == pieces.take(src as int));
                reveal_strlit(", ");
                reveal_strlit(" -> ");
                reveal_strlit("∅");
            }
            if src > 0 {
                out.append(", ");
            }
            let ghost start = out@;
            push_decimal(&mut out, src);
            out.append(" -> ");
            match self.map[src] {
                Some(dest) => push_decimal(&mut out, dest),
                None => out.append("∅"),
            }
            proof {
                assert(out@ == start + entry_text(src as nat, self@[src as int]));
                assert(pieces.take(src + 1)[src as int] == entry_text(src as nat, self@[src as int]));
                if src == 0 {
                    assert(pieces.take(1) == seq![pieces[0]]);
                }
            }
            src += 1;
        }
        proof {
            assert(pieces.take(self@.len() as int) == pieces);
        }
        out
    }

    /// The largest destination index of the entries, `0` where there is none.
    fn max_dest_index(vec: &[Option<usize>]) -> (r: usize)
        ensures
            r == max_dest(vec@),
    {
        let mut m: usize = 0;
        let mut i: usize = 0;
        while i < vec.len()
            invariant
                i <= vec@.len(),
                m == max_dest(vec@.take(i as int)),
            decreases vec@.len() - i,
        {
            proof {
                assert(vec@.take(i + 1).drop_last() == vec@.take(i as int));
            }
            if let Some(d) = vec[i] {
                if d > m {
                    m = d;
                }
            }
            i += 1;
        }
        proof {
            assert(vec@.take(vec@.len() as int) == vec@);
        }
        m
    }
}

/// The errors that creating a [`ColumnMap`] can give.
#[derive(Debug, Copy, Clone, PartialEq, Eq, Structural)]
#[non_exhaustive]
pub enum MapError {
    /// A destination occurs (at least) twice.
    DuplicateIndex { dest: usize },
    /// The largest destination index is `usize::MAX`, too large to size a row.
    IndexTooLarge,
    /// The source range is reversed.
    RangeError { src_start: usize, src_end: usize },
}

impl MapError {
    /// The text of the error.
    pub fn to_string(&self) -> (r: String)
        ensures
            r@ == match *self {
                MapError::DuplicateIndex { dest } => "Duplicate destination index: "@ + decimal(
                    dest as nat,
                ),
                MapError::IndexTooLarge => "Index ("@ + decimal(usize::MAX as nat)
                    + ") is too large"@,
                MapError::RangeError { src_start, src_end } => "Source range error: start ("@
                    + decimal(src_start as nat) + ") > end ("@ + decimal(src_end as nat) + ")"@,
            },
    {
        let mut out = String::new();
        match *self {
            MapError::DuplicateIndex { dest } => {
                out.append("Duplicate destination index: ");
                push_decimal(&mut out, dest);
            },
            MapError::IndexTooLarge => {
                out.append("Index (");
                push_decimal(&mut out, usize::MAX);
                out.append(") is too large");
            },
            MapError::RangeError { src_start, src_end } => {
                out.append("Source range error: start (");
                push_decimal(&mut out, src_start);
                out.append(") > end (");
                push_decimal(&mut out, src_end);
                out.append(")");
            },
        }
        out
    }

    /// Checks the entries for a repeated destination.
    fn check_vec(vec: &[Option<usize>]) -> (r: Result<(), MapError>)
        ensures
            r is Ok <==> distinct_dests(vec@),
            r matches Err(e) ==> (e matches MapError::DuplicateIndex { dest } && first_repeat(
                vec@,
                dest,
            )),
    {
        let mut seen_indices: HashSet<usize> = HashSet::new();
        let mut i: usize = 0;
        while i < vec.len()
            invariant
                i <= vec@.len(),
                distinct_dests(vec@.take(i as int)),
                forall|d: usize| #[trigger]
                    seen_indices@.contains(d) <==> vec@.take(i as int).contains(Some(d)),
            decreases vec@.len() - i,
        {
            let ghost prefix = vec@.take(i as int);
            proof {
                assert(vec@.take(i + 1) == prefix.push(vec@[i as int]));
            }
            if let Some(dest) = vec[i] {
                if !seen_indices.insert(dest) {
                    proof {
                        assert(vec@[i as int] == Some(dest));
                        assert(first_repeat(vec@, dest));
                        lemma_first_repeat_not_distinct(vec@, dest);
                    }
                    return Err(MapError::DuplicateIndex { dest });
                }
                proof {
                    let next = vec@.take(i + 1);
                    assert forall|a: int, b: int|
                        0 <= a < b < next.len() && next[a] is Some implies next[a] != next[b] by {
                        if b == i {
                            assert(prefix[a] == next[a]);
                        } else {
                            assert(prefix[a] == next[a] && prefix[b] == next[b]);
                        }
                    }
                    assert forall|d: usize| #[trigger]
                        seen_indices@.contains(d) <==> next.contains(Some(d)) by {
                        if next.contains(Some(d)) && d != dest {
                            let k = choose|k: int| 0 <= k < next.len() && next[k] == Some(d);
                            assert(prefix[k] == next[k]);
                        }
                        if prefix.contains(Some(d)) {
                            let k = choose|k: int| 0 <= k < prefix.len() && prefix[k] == Some(d);
                            assert(next[k] == prefix[k]);
                        }
                        if d == dest {
                            assert(next[i as int] == Some(d));
                        }
                    }
                }
            } else {
                proof {
                    let next = vec@.take(i + 1);
                    assert forall|a: int, b: int|
                        0 <= a < b < next.len() && next[a] is Some implies next[a] != next[b] by {
                        if b < i {
                            assert(prefix[a] == next[a] && prefix[b] == next[b]);
                        }
                    }
                    assert forall|d: usize| #[trigger]
                        seen_indices@.contains(d) <==> next.contains(Some(d)) by {
                        if next.contains(Some(d)) {
                            let k = choose|k: int| 0 <= k < next.len() && next[k] == Some(d);
                            assert(prefix[k] == next[k]);
                        }
                        if prefix.contains(Some(d)) {
                            let k = choose|k: int| 0 <= k < prefix.len() && prefix[k] == Some(d);
                            assert(next[k] == prefix[k]);
                        }
                    }
                }
            }
            i += 1;
        }
        proof {
            assert(vec@.take(vec@.len() as int) == vec@);
        }
        Ok(())
    }

    /// Checks that the largest destination index is not `usize::MAX`.
    fn check_index(max: usize) -> (r: Result<(), MapError>)
        ensures
            r == (if max != usize::MAX {
                Ok::<(), MapError>(())
            } else {
                Err(MapError::IndexTooLarge)
            }),
    {
        if max != usize::MAX {
            Ok(())
        } else {
            Err(MapError::IndexTooLarge)
        }
    }

    /// Checks that the source range is not reversed.
    fn check_range(src_start: usize, src_end: usize) -> (r: Result<(), MapError>)
        ensures
            r == (if src_start <= src_end {
                Ok::<(), MapError>(())
            } else {
                Err(MapError::RangeError { src_start, src_end })
            }),
    {
        if src_start <= src_end {
            Ok(())
        } else {
            Err(MapError::RangeError { src_start, src_end })
        }
    }

    /// Checks that the last destination of a sequential map fits in `usize`.
    fn check_overflow(src_start: usize, src_end: usize, dest_start: usize) -> (r: Result<
        (),
        MapError,
    >)
        requires
            src_start <= src_end,
        ensures
            r == (if dest_start + (src_end - src_start) <= usize::MAX {
                Ok::<(), MapError>(())
            } else {
                Err(MapError::IndexTooLarge)
            }),
    {
        if dest_start.checked_add(src_end - src_start).is_some() {
            Ok(())
        } else {
            Err(MapError::IndexTooLarge)
        }
    }
}

} // verus!

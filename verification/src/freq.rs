//! Frequency maps: finite maps from characters to occurrence counts.

use crate::filter::{FilterSpec, FreqGetter};
use vstd::prelude::*;
use vstd::map::*;

verus! {

/// The number of occurrences of `c` in `s`.
pub open spec fn occurrences(s: Seq<char>, c: char) -> nat
    decreases s.len(),
{
    if s.len() == 0 {
        0
    } else {
        occurrences(s.drop_last(), c) + if s.last() == c {
            1nat
        } else {
            0nat
        }
    }
}

/// The count `m` records for `c`, with absent characters counting as zero.
pub open spec fn count_of(m: Map<char, nat>, c: char) -> nat {
    if m.contains_key(c) {
        m[c]
    } else {
        0
    }
}

/// Addition capped at the largest count a frequency map can store.
pub open spec fn sat_add(a: nat, b: nat) -> nat {
    if a + b <= u64::MAX {
        (a + b) as nat
    } else {
        u64::MAX as nat
    }
}

/// The finite map described by a sequence of (character, count) entries;
/// a later entry for a character overrides an earlier one.
pub closed spec fn map_of(entries: Seq<(char, u64)>) -> Map<char, nat>
    decreases entries.len(),
{
    if entries.len() == 0 {
        Map::empty()
    } else {
        map_of(entries.drop_last()).insert(entries.last().0, entries.last().1 as nat)
    }
}

/// A frequency map from characters to how often each occurred.
///
/// Stored as a vector of (character, count) pairs whose characters are
/// pairwise distinct and whose counts are at least 1: a character that was
/// never counted is absent rather than recorded with count 0.
pub struct FreqMap {
    entries: Vec<(char, u64)>,
}

impl View for FreqMap {
    type V = Map<char, nat>;

    closed spec fn view(&self) -> Map<char, nat> {
        map_of(self.entries@)
    }
}

/// The characters of `entries` are pairwise distinct.
spec fn distinct_keys(entries: Seq<(char, u64)>) -> bool {
    forall|i: int, j: int|
        0 <= i < j < entries.len() ==> (#[trigger] entries[i]).0 != (#[trigger] entries[j]).0
}

proof fn lemma_map_of_contains(entries: Seq<(char, u64)>, c: char)
    ensures
        map_of(entries).contains_key(c) <==> exists|i: int|
            0 <= i < entries.len() && (#[trigger] entries[i]).0 == c,
    decreases entries.len(),
{
    if entries.len() > 0 {
        lemma_map_of_contains(entries.drop_last(), c);
        if entries.last().0 == c {
            assert(entries[entries.len() - 1].0 == c);
        } else if map_of(entries).contains_key(c) {
            let i = choose|i: int|
                0 <= i < entries.drop_last().len() && (#[trigger] entries.drop_last()[i]).0 == c;
            assert(entries[i].0 == c);
        } else if exists|i: int| 0 <= i < entries.len() && (#[trigger] entries[i]).0 == c {
            let i = choose|i: int| 0 <= i < entries.len() && (#[trigger] entries[i]).0 == c;
            assert(entries.drop_last()[i].0 == c);
        }
    }
}

proof fn lemma_map_of_value(entries: Seq<(char, u64)>, i: int)
    requires
        0 <= i < entries.len(),
        distinct_keys(entries),
    ensures
        map_of(entries).contains_key(entries[i].0),
        map_of(entries)[entries[i].0] == entries[i].1 as nat,
    decreases entries.len(),
{
    if i < entries.len() - 1 {
        assert(distinct_keys(entries.drop_last())) by {
            assert(forall|p: int, q: int|
                0 <= p < q < entries.drop_last().len() ==> (#[trigger] entries.drop_last()[p]).0
                    != (#[trigger] entries.drop_last()[q]).0) by {
                assert(forall|p: int|
                    0 <= p < entries.drop_last().len() ==> #[trigger] entries.drop_last()[p]
                        == entries[p]);
            }
        }
        lemma_map_of_value(entries.drop_last(), i);
        assert(entries.drop_last()[i] == entries[i]);
        assert(entries.last().0 != entries[i].0);
    }
}

proof fn lemma_map_of_push(entries: Seq<(char, u64)>, k: char, v: u64)
    ensures
        map_of(entries.push((k, v))) == map_of(entries).insert(k, v as nat),
{
    assert(entries.push((k, v)).drop_last() =~= entries);
    assert(entries.push((k, v)).last() == (k, v));
}

proof fn lemma_map_of_update(entries: Seq<(char, u64)>, i: int, v: u64)
    requires
        0 <= i < entries.len(),
        distinct_keys(entries),
    ensures
        map_of(entries.update(i, (entries[i].0, v))) == map_of(entries).insert(
            entries[i].0,
            v as nat,
        ),
    decreases entries.len(),
{
    let k = entries[i].0;
    let updated = entries.update(i, (k, v));
    if i == entries.len() - 1 {
        assert(updated.drop_last() =~= entries.drop_last());
        assert(updated.last() == (k, v));
        assert(map_of(entries.drop_last()).insert(k, entries[i].1 as nat).insert(k, v as nat)
            =~= map_of(entries.drop_last()).insert(k, v as nat));
    } else {
        assert(distinct_keys(entries.drop_last())) by {
            assert(forall|p: int|
                0 <= p < entries.drop_last().len() ==> #[trigger] entries.drop_last()[p]
                    == entries[p]);
        }
        lemma_map_of_update(entries.drop_last(), i, v);
        assert(updated.drop_last() =~= entries.drop_last().update(i, (k, v)));
        assert(updated.last() == entries.last());
        let last = entries.last();
        assert(entries[entries.len() - 1] == last);
        assert(last.0 != k);
        assert(map_of(entries.drop_last()).insert(k, v as nat).insert(last.0, last.1 as nat)
            =~= map_of(entries.drop_last()).insert(last.0, last.1 as nat).insert(k, v as nat));
    }
}

proof fn lemma_map_of_bounds(entries: Seq<(char, u64)>)
    requires
        distinct_keys(entries),
        forall|i: int| 0 <= i < entries.len() ==> (#[trigger] entries[i]).1 >= 1,
    ensures
        forall|c: char|
            map_of(entries).contains_key(c) ==> 1 <= #[trigger] map_of(entries)[c] <= u64::MAX,
{
    assert forall|c: char|
        map_of(entries).contains_key(c) implies 1 <= #[trigger] map_of(entries)[c]
        <= u64::MAX by {
        lemma_map_of_contains(entries, c);
        let i = choose|i: int| 0 <= i < entries.len() && (#[trigger] entries[i]).0 == c;
        lemma_map_of_value(entries, i);
    }
}

impl FreqMap {
    #[verifier::type_invariant]
    spec fn type_inv(self) -> bool {
        &&& distinct_keys(self.entries@)
        &&& forall|i: int| 0 <= i < self.entries@.len() ==> (#[trigger] self.entries@[i]).1 >= 1
    }

    /// Creates an empty frequency map.
    pub fn new() -> (r: Self)
        ensures
            r@ == Map::<char, nat>::empty(),
    {
        FreqMap { entries: Vec::new() }
    }

    /// The index at which `key` is stored, if it is present.
    fn find_index(&self, key: char) -> (r: Option<usize>)
        ensures
            match r {
                Some(i) => i < self.entries@.len() && self.entries@[i as int].0 == key,
                None => forall|i: int|
                    0 <= i < self.entries@.len() ==> (#[trigger] self.entries@[i]).0 != key,
            },
    {
        let mut i: usize = 0;
        while i < self.entries.len()
            invariant
                i <= self.entries@.len(),
                forall|j: int| 0 <= j < i ==> (#[trigger] self.entries@[j]).0 != key,
            decreases self.entries@.len() - i,
        {
            if self.entries[i].0 == key {
                return Some(i);
            }
            i = i + 1;
        }
        None
    }

    /// Returns the count recorded for `key`, or `None` when `key` was never
    /// counted.
    pub fn get(&self, key: char) -> (r: Option<u64>)
        ensures
            match r {
                Some(v) => self@.contains_key(key) && self@[key] == v as nat && v >= 1,
                None => !self@.contains_key(key),
            },
    {
        proof {
            use_type_invariant(&*self);
        }
        match self.find_index(key) {
            Some(i) => {
                proof {
                    lemma_map_of_value(self.entries@, i as int);
                }
                Some(self.entries[i].1)
            },
            None => {
                proof {
                    lemma_map_of_contains(self.entries@, key);
                }
                None
            },
        }
    }

    /// The number of distinct characters recorded.
    pub fn len(&self) -> (n: usize)
        ensures
            n == self@.dom().len(),
    {
        proof {
            use_type_invariant(&*self);
            lemma_map_of_dom_len(self.entries@);
        }
        self.entries.len()
    }

    /// The recorded (character, count) pairs, in no particular order: every
    /// pair is an entry of the map, every entry of the map appears, and no
    /// character appears twice.
    pub fn to_vec(&self) -> (r: Vec<(char, u64)>)
        ensures
            forall|i: int|
                0 <= i < r@.len() ==> self@.contains_key((#[trigger] r@[i]).0) && self@[r@[i].0]
                    == r@[i].1 as nat,
            forall|c: char|
                self@.contains_key(c) ==> exists|i: int|
                    0 <= i < r@.len() && (#[trigger] r@[i]).0 == c,
            forall|i: int, j: int|
                0 <= i < j < r@.len() ==> (#[trigger] r@[i]).0 != (#[trigger] r@[j]).0,
    {
        proof {
            use_type_invariant(&*self);
        }
        let mut r: Vec<(char, u64)> = Vec::new();
        let mut i: usize = 0;
        while i < self.entries.len()
            invariant
                i <= self.entries@.len(),
                r@ == self.entries@.take(i as int),
            decreases self.entries@.len() - i,
        {
            let entry = self.entries[i];
            r.push(entry);
            proof {
                assert(r@ =~= self.entries@.take(i + 1));
            }
            i = i + 1;
        }
        proof {
            assert(r@ =~= self.entries@);
            assert forall|j: int|
                0 <= j < r@.len() implies self@.contains_key((#[trigger] r@[j]).0) && self@[r@[j].0]
                == r@[j].1 as nat by {
                lemma_map_of_value(self.entries@, j);
            }
            assert forall|c: char| self@.contains_key(c) implies exists|j: int|
                0 <= j < r@.len() && (#[trigger] r@[j]).0 == c by {
                lemma_map_of_contains(self.entries@, c);
            }
        }
        r
    }
}

proof fn lemma_drop_last_distinct(entries: Seq<(char, u64)>)
    requires
        entries.len() > 0,
        distinct_keys(entries),
    ensures
        distinct_keys(entries.drop_last()),
{
    assert(forall|p: int|
        0 <= p < entries.drop_last().len() ==> #[trigger] entries.drop_last()[p] == entries[p]);
}

proof fn lemma_map_of_dom_len(entries: Seq<(char, u64)>)
    requires
        distinct_keys(entries),
    ensures
        map_of(entries).dom().finite(),
        map_of(entries).dom().len() == entries.len(),
    decreases entries.len(),
{
    if entries.len() == 0 {
        assert(map_of(entries).dom() =~= Set::<char>::empty());
    } else {
        let rest = entries.drop_last();
        let k = entries.last().0;
        lemma_drop_last_distinct(entries);
        lemma_map_of_dom_len(rest);
        assert(!map_of(rest).contains_key(k)) by {
            lemma_map_of_contains(rest, k);
            if exists|i: int| 0 <= i < rest.len() && (#[trigger] rest[i]).0 == k {
                let i = choose|i: int| 0 <= i < rest.len() && (#[trigger] rest[i]).0 == k;
                assert(entries[i].0 == k);
                assert(entries[entries.len() - 1].0 == k);
            }
        }
        assert(map_of(entries).dom() =~= map_of(rest).dom().insert(k));
    }
}

/// Adds `inc` to the count recorded for `key`, saturating at the largest
/// storable count; a character not yet present is inserted with count `inc`.
pub(crate) fn inc_freq_map_entry(map: &mut FreqMap, key: char, inc: u64)
    requires
        inc >= 1,
    ensures
        final(map)@ == old(map)@.insert(key, sat_add(count_of(old(map)@, key), inc as nat)),
{
    proof {
        use_type_invariant(&*map);
    }
    let idx = map.find_index(key);
    let ghost old_entries = map.entries@;
    let mut entries: Vec<(char, u64)> = Vec::new();
    core::mem::swap(&mut entries, &mut map.entries);
    match idx {
        Some(i) => {
            let curr = entries[i].1;
            let next = if curr <= u64::MAX - inc {
                curr + inc
            } else {
                u64::MAX
            };
            proof {
                lemma_map_of_value(old_entries, i as int);
                lemma_map_of_update(old_entries, i as int, next);
            }
            entries.set(i, (key, next));
        },
        None => {
            proof {
                lemma_map_of_contains(old_entries, key);
                lemma_map_of_push(old_entries, key, inc);
            }
            entries.push((key, inc));
        },
    }
    core::mem::swap(&mut entries, &mut map.entries);
}

/// The merge of two frequency maps: the counts for each character are added
/// (saturating at the largest storable count), a character absent from one
/// side contributing zero.
pub open spec fn spec_merge(a: Map<char, nat>, b: Map<char, nat>) -> Map<char, nat> {
    Map::new(
        |c: char| a.contains_key(c) || b.contains_key(c),
        |c: char| sat_add(count_of(a, c), count_of(b, c)),
    )
}

/// The count a merge records for any character is the capped sum of the two
/// counts it was merged from.
pub proof fn lemma_count_of_merge(a: Map<char, nat>, b: Map<char, nat>, c: char)
    ensures
        count_of(spec_merge(a, b), c) == sat_add(count_of(a, c), count_of(b, c)),
{
}

/// Adds every count of `src` into `dst`, leaving `src` unchanged.
pub fn merge_freq_maps(dst: &mut FreqMap, src: &FreqMap)
    ensures
        final(dst)@ == spec_merge(old(dst)@, src@),
{
    proof {
        use_type_invariant(&*dst);
        use_type_invariant(src);
        lemma_map_of_bounds(dst.entries@);
    }
    let mut i: usize = 0;
    while i < src.entries.len()
        invariant
            i <= src.entries@.len(),
            distinct_keys(src.entries@),
            forall|j: int| 0 <= j < src.entries@.len() ==> (#[trigger] src.entries@[j]).1 >= 1,
            src@ == map_of(src.entries@),
            forall|c: char| old(dst)@.contains_key(c) ==> #[trigger] old(dst)@[c] <= u64::MAX,
            dst@ == spec_merge(old(dst)@, map_of(src.entries@.take(i as int))),
        decreases src.entries@.len() - i,
    {
        let (key, value) = src.entries[i];
        proof {
            let prefix = src.entries@.take(i as int);
            assert(src.entries@.take(i + 1) =~= prefix.push((key, value)));
            lemma_map_of_push(prefix, key, value);
            lemma_map_of_contains(prefix, key);
            assert(forall|j: int| 0 <= j < prefix.len() ==> #[trigger] prefix[j] == src.entries@[j]);
            assert(!map_of(prefix).contains_key(key));
            assert_maps_equal!(
                spec_merge(old(dst)@, map_of(prefix)).insert(
                    key,
                    sat_add(count_of(spec_merge(old(dst)@, map_of(prefix)), key), value as nat),
                ),
                spec_merge(old(dst)@, map_of(src.entries@.take(i + 1))),
                c => {
                    if c == key {
                        assert(count_of(map_of(prefix), key) == 0);
                        assert(count_of(spec_merge(old(dst)@, map_of(prefix)), key)
                            == count_of(old(dst)@, key));
                    }
                }
            );
        }
        inc_freq_map_entry(dst, key, value);
        i = i + 1;
    }
    proof {
        assert(src.entries@.take(src.entries@.len() as int) =~= src.entries@);
    }
}

/// The frequency map counting the accepted characters of `s`: its keys are
/// the characters of `s` that `f` accepts, each mapped to its number of
/// occurrences in `s`.
pub open spec fn spec_count(s: Seq<char>, f: FilterSpec) -> Map<char, nat> {
    Map::new(|c: char| s.contains(c) && f.accepts(c), |c: char| occurrences(s, c))
}

proof fn lemma_occurrences_push(s: Seq<char>, x: char, c: char)
    ensures
        occurrences(s.push(x), c) == occurrences(s, c) + if x == c {
            1nat
        } else {
            0nat
        },
{
    assert(s.push(x).drop_last() =~= s);
    assert(s.push(x).last() == x);
}

proof fn lemma_contains_push(s: Seq<char>, x: char, c: char)
    ensures
        s.push(x).contains(c) <==> s.contains(c) || c == x,
{
    if s.contains(c) {
        let j = choose|j: int| 0 <= j < s.len() && s[j] == c;
        assert(s.push(x)[j] == c);
    }
    if c == x {
        assert(s.push(x)[s.len() as int] == c);
    }
    if s.push(x).contains(c) {
        let j = choose|j: int| 0 <= j < s.push(x).len() && s.push(x)[j] == c;
        if j < s.len() {
            assert(s[j] == c);
        }
    }
}

proof fn lemma_occurrences_absent(s: Seq<char>, c: char)
    requires
        !s.contains(c),
    ensures
        occurrences(s, c) == 0,
    decreases s.len(),
{
    if s.len() > 0 {
        assert(!s.drop_last().contains(c)) by {
            if s.drop_last().contains(c) {
                let j = choose|j: int| 0 <= j < s.drop_last().len() && s.drop_last()[j] == c;
                assert(s[j] == c);
            }
        }
        assert(s.last() != c) by {
            if s.last() == c {
                assert(s[s.len() - 1] == c);
            }
        }
        lemma_occurrences_absent(s.drop_last(), c);
    }
}

proof fn lemma_occurrences_le_len(s: Seq<char>, c: char)
    ensures
        occurrences(s, c) <= s.len(),
    decreases s.len(),
{
    if s.len() > 0 {
        lemma_occurrences_le_len(s.drop_last(), c);
    }
}

/// Extending the counted prefix by one character either bumps that
/// character's count (when the filter accepts it) or leaves the map
/// unchanged (when it does not).
pub(crate) proof fn lemma_count_step(s: Seq<char>, i: int, f: FilterSpec)
    requires
        0 <= i < s.len(),
        i < u64::MAX,
    ensures
        f.accepts(s[i]) ==> spec_count(s.take(i + 1), f) == spec_count(s.take(i), f).insert(
            s[i],
            sat_add(count_of(spec_count(s.take(i), f), s[i]), 1),
        ),
        !f.accepts(s[i]) ==> spec_count(s.take(i + 1), f) == spec_count(s.take(i), f),
{
    let prefix = s.take(i);
    let x = s[i];
    assert(s.take(i + 1) =~= prefix.push(x));
    if f.accepts(x) {
        assert(count_of(spec_count(prefix, f), x) == occurrences(prefix, x)) by {
            if !prefix.contains(x) {
                lemma_occurrences_absent(prefix, x);
            }
        }
        assert(occurrences(prefix, x) + 1 <= u64::MAX) by {
            lemma_occurrences_le_len(prefix, x);
        }
        assert_maps_equal!(
            spec_count(prefix.push(x), f),
            spec_count(prefix, f).insert(x, sat_add(count_of(spec_count(prefix, f), x), 1)),
            c => {
                lemma_contains_push(prefix, x, c);
                lemma_occurrences_push(prefix, x, c);
            }
        );
    } else {
        assert_maps_equal!(
            spec_count(prefix.push(x), f),
            spec_count(prefix, f),
            c => {
                lemma_contains_push(prefix, x, c);
                lemma_occurrences_push(prefix, x, c);
            }
        );
    }
}

/// Counting an empty character sequence yields the empty frequency map,
/// under every filter predicate.
pub proof fn lemma_count_empty(f: FilterSpec)
    ensures
        spec_count(Seq::<char>::empty(), f) == Map::<char, nat>::empty(),
{
    assert_maps_equal!(spec_count(Seq::<char>::empty(), f), Map::<char, nat>::empty());
}

/// Counts every character of `input`: frequency counting under the
/// unconditional filter.
pub fn get_freq(input: &str) -> (r: FreqMap)
    ensures
        r@ == spec_count(input@, FilterSpec::Unconditional),
{
    let getter = FreqGetter::new();
    getter.get(input)
}

/// Merge is commutative: combining two frequency maps in either order gives
/// identical counts.
pub proof fn lemma_merge_commutative(a: Map<char, nat>, b: Map<char, nat>)
    ensures
        spec_merge(a, b) == spec_merge(b, a),
{
    assert_maps_equal!(spec_merge(a, b), spec_merge(b, a));
}

/// Merge is associative: either pairing of three frequency maps gives
/// identical counts.
pub proof fn lemma_merge_associative(a: Map<char, nat>, b: Map<char, nat>, c: Map<char, nat>)
    ensures
        spec_merge(spec_merge(a, b), c) == spec_merge(a, spec_merge(b, c)),
{
    assert_maps_equal!(
        spec_merge(spec_merge(a, b), c),
        spec_merge(a, spec_merge(b, c)),
        k => {
            lemma_count_of_merge(a, b, k);
            lemma_count_of_merge(b, c, k);
        }
    );
}

/// Merge order independence: merging three frequency maps in any pairing and
/// order yields identical final counts.
pub proof fn lemma_merge_order_independent(m1: Map<char, nat>, m2: Map<char, nat>, m3: Map<
    char,
    nat,
>)
    ensures
        spec_merge(spec_merge(m1, m2), m3) == spec_merge(m1, spec_merge(m2, m3)),
        spec_merge(spec_merge(m1, m2), m3) == spec_merge(m3, spec_merge(m1, m2)),
{
    lemma_merge_associative(m1, m2, m3);
    lemma_merge_commutative(spec_merge(m1, m2), m3);
}

/// Merge identity: merging an empty map into `m` leaves every count of `m`
/// unchanged. The bound on the counts holds of the view of every `FreqMap`,
/// whose stored counts are `u64` values.
pub proof fn lemma_merge_identity(m: Map<char, nat>)
    requires
        forall|c: char| m.contains_key(c) ==> #[trigger] m[c] <= u64::MAX,
    ensures
        spec_merge(m, Map::<char, nat>::empty()) == m,
{
    assert_maps_equal!(spec_merge(m, Map::<char, nat>::empty()), m);
}

} // verus!

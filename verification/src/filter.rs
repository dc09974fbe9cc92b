//! Filter predicates: the rule deciding which characters are counted.

use crate::freq::{inc_freq_map_entry, lemma_count_step, spec_count, FreqMap};
use vstd::prelude::*;
use vstd::string::*;

verus! {

/// Declares `regex::Regex` (a compiled regular expression, opaque here) so
/// that it can stand in fields and signatures.
#[verifier::external_type_specification]
#[verifier::external_body]
pub struct ExRegex(regex::Regex);

/// The pattern a compiled `regex::Regex` was built from.
pub uninterp spec fn regex_pattern(re: regex::Regex) -> Seq<char>;

/// Whether the regular expression compiled from `pattern` finds a match
/// somewhere in the one-character string holding `c`.
pub uninterp spec fn regex_accepts(pattern: Seq<char>, c: char) -> bool;

/// Relies on `regex::Regex::find`, applied to the single-character string of
/// `c`: whether a match is found is a function of the compiled pattern and
/// that string alone.
#[verifier::external_body]
fn regex_find_char(re: &regex::Regex, c: char) -> (r: bool)
    ensures
        r == regex_accepts(regex_pattern(*re), c),
{
    re.find(c.to_string().as_str()).is_some()
}

/// The mathematical content of a filter predicate: which of the three
/// strategies is active, and its data.
pub enum FilterSpec {
    /// Every character is accepted.
    Unconditional,
    /// A character is accepted iff the regular expression compiled from the
    /// pattern matches its one-character string form.
    Pattern(Seq<char>),
    /// A character is accepted iff it belongs to the set.
    Membership(Set<char>),
}

impl FilterSpec {
    /// Whether this filter accepts `c`.
    pub open spec fn accepts(self, c: char) -> bool {
        match self {
            FilterSpec::Unconditional => true,
            FilterSpec::Pattern(p) => regex_accepts(p, c),
            FilterSpec::Membership(s) => s.contains(c),
        }
    }
}

/// The active filtering strategy and its data. Exactly one strategy is
/// representable at a time, so configuring a new one replaces the old.
enum Filter {
    Unconditional,
    Pattern(regex::Regex),
    Membership(Vec<char>),
}

/// The frequency-counting engine: a filter predicate deciding which
/// characters are counted, built fluently and immutable once built.
pub struct FreqGetter {
    filter: Filter,
}

impl View for FreqGetter {
    type V = FilterSpec;

    closed spec fn view(&self) -> FilterSpec {
        match self.filter {
            Filter::Unconditional => FilterSpec::Unconditional,
            Filter::Pattern(re) => FilterSpec::Pattern(regex_pattern(re)),
            Filter::Membership(set) => FilterSpec::Membership(set@.to_set()),
        }
    }
}

fn contains_char(set: &Vec<char>, c: char) -> (r: bool)
    ensures
        r == set@.contains(c),
{
    let mut i: usize = 0;
    while i < set.len()
        invariant
            i <= set@.len(),
            forall|j: int| 0 <= j < i ==> set@[j] != c,
        decreases set@.len() - i,
    {
        if set[i] == c {
            return true;
        }
        i = i + 1;
    }
    false
}

impl FreqGetter {
    /// A predicate that accepts every character.
    pub fn new() -> (r: Self)
        ensures
            r@ == FilterSpec::Unconditional,
    {
        FreqGetter { filter: Filter::Unconditional }
    }

    /// Makes the predicate a pattern-match rule: a character is accepted iff
    /// `regex` finds a match in its one-character string form.
    pub fn filter_regex(self, regex: regex::Regex) -> (r: Self)
        ensures
            r@ == FilterSpec::Pattern(regex_pattern(regex)),
    {
        FreqGetter { filter: Filter::Pattern(regex) }
    }

    /// Makes the predicate a set-membership rule: a character is accepted
    /// iff it is an element of `set`.
    pub fn filter_set(self, set: Vec<char>) -> (r: Self)
        ensures
            r@ == FilterSpec::Membership(set@.to_set()),
    {
        FreqGetter { filter: Filter::Membership(set) }
    }

    /// Whether this predicate accepts `c`. A total function of the predicate
    /// and the character: every call on the same pair returns the same
    /// result.
    pub fn filter_char(&self, c: char) -> (r: bool)
        ensures
            r == self@.accepts(c),
    {
        match &self.filter {
            Filter::Unconditional => true,
            Filter::Pattern(re) => regex_find_char(re, c),
            Filter::Membership(set) => contains_char(set, c),
        }
    }

    /// Counts the characters of `input` that this predicate accepts: the
    /// result maps each accepted character to its number of occurrences in
    /// `input`, and holds no other keys.
    pub fn get(&self, input: &str) -> (r: FreqMap)
        ensures
            r@ == spec_count(input@, self@),
    {
        let mut out = FreqMap::new();
        let n = input.unicode_len();
        let mut i: usize = 0;
        while i < n
            invariant
                n == input@.len(),
                i <= n,
                out@ == spec_count(input@.take(i as int), self@),
            decreases n - i,
        {
            let c = input.get_char(i);
            proof {
                lemma_count_step(input@, i as int, self@);
            }
            if self.filter_char(c) {
                inc_freq_map_entry(&mut out, c, 1);
            }
            i = i + 1;
        }
        proof {
            assert(input@.take(input@.len() as int) =~= input@);
        }
        out
    }
}

} // verus!

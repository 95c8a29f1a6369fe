//! Character categories and the fallback records for text no dictionary covers.
use vstd::prelude::*;

use crate::error::DictionaryError;
use crate::word_entry::WordEntry;

verus! {

/// How a category takes part in unknown-word generation.
#[derive(Clone, Copy, Debug, PartialEq, Eq, Structural)]
pub struct CategoryData {
    /// Start unknown-word candidates here even where a dictionary word starts.
    pub invoke: bool,
    /// Extend a candidate over the following characters of the same category.
    pub group: bool,
}

/// An inclusive range of code points and the categories they belong to.
#[derive(Clone, Debug)]
pub struct CodeRange {
    pub low: u32,
    pub high: u32,
    pub categories: Vec<usize>,
}

/// Classifies code points into categories: the first range that holds a code
/// point decides; code points in no range take the default categories.
#[derive(Clone, Debug)]
pub struct CharacterDefinition {
    pub categories: Vec<CategoryData>,
    pub ranges: Vec<CodeRange>,
    pub default_categories: Vec<usize>,
}

/// Whether `ids` is a non-empty list of ids below `n`.
pub open spec fn valid_ids(ids: Seq<usize>, n: nat) -> bool {
    ids.len() > 0 && forall|i: int| 0 <= i < ids.len() ==> #[trigger] ids[i] < n
}

impl CharacterDefinition {
    /// Every category list is non-empty and names defined categories.
    pub open spec fn wf(&self) -> bool {
        &&& valid_ids(self.default_categories@, self.categories@.len())
        &&& forall|i: int|
            0 <= i < self.ranges@.len() ==> valid_ids(
                #[trigger] self.ranges@[i].categories@,
                self.categories@.len(),
            )
    }

    /// The categories of `c`, from the ranges at index `i` on.
    pub open spec fn categories_from(&self, c: u32, i: nat) -> Seq<usize>
        decreases self.ranges@.len() - i,
    {
        if i >= self.ranges@.len() {
            self.default_categories@
        } else if self.ranges@[i as int].low <= c <= self.ranges@[i as int].high {
            self.ranges@[i as int].categories@
        } else {
            self.categories_from(c, i + 1)
        }
    }

    /// The categories of code point `c`.
    pub open spec fn categories_of(&self, c: u32) -> Seq<usize> {
        self.categories_from(c, 0)
    }

    /// Builds a classification; fails when a category list is empty or names
    /// an undefined category.
    pub fn new(categories: Vec<CategoryData>, ranges: Vec<CodeRange>, default_categories: Vec<usize>) -> (r: Result<CharacterDefinition, DictionaryError>)
        ensures
            match r {
                Ok(d) => d.wf() && d.categories@ == categories@ && d.ranges@ == ranges@
                    && d.default_categories@ == default_categories@,
                Err(e) => e == DictionaryError::Format && !(CharacterDefinition {
                    categories,
                    ranges,
                    default_categories,
                }).wf(),
            },
    {
        let n = categories.len();
        if !ids_valid(&default_categories, n) {
            return Err(DictionaryError::Format);
        }
        let mut i: usize = 0;
        while i < ranges.len()
            invariant
                n == categories@.len(),
                i <= ranges@.len(),
                forall|j: int| 0 <= j < i ==> valid_ids(#[trigger] ranges@[j].categories@, n as nat),
            decreases ranges@.len() - i,
        {
            if !ids_valid(&ranges[i].categories, n) {
                let ghost d = CharacterDefinition { categories, ranges, default_categories };
                assert(!valid_ids(d.ranges@[i as int].categories@, d.categories@.len()));
                return Err(DictionaryError::Format);
            }
            i += 1;
        }
        Ok(CharacterDefinition { categories, ranges, default_categories })
    }

    /// The categories of code point `c`: never empty.
    pub fn lookup_categories(&self, c: u32) -> (r: &Vec<usize>)
        requires
            self.wf(),
        ensures
            r@ == self.categories_of(c),
            valid_ids(r@, self.categories@.len()),
    {
        let mut i: usize = 0;
        while i < self.ranges.len()
            invariant
                i <= self.ranges@.len(),
                self.wf(),
                self.categories_from(c, i as nat) == self.categories_of(c),
            decreases self.ranges@.len() - i,
        {
            if self.ranges[i].low <= c && c <= self.ranges[i].high {
                assert(valid_ids(self.ranges@[i as int].categories@, self.categories@.len()));
                return &self.ranges[i].categories;
            }
            i += 1;
        }
        &self.default_categories
    }

    /// Whether category `category` starts candidates even beside dictionary words.
    pub fn invokes(&self, category: usize) -> (r: bool)
        requires
            category < self.categories@.len(),
        ensures
            r == self.categories@[category as int].invoke,
    {
        self.categories[category].invoke
    }

    /// Whether category `category` groups consecutive characters.
    pub fn groups(&self, category: usize) -> (r: bool)
        requires
            category < self.categories@.len(),
        ensures
            r == self.categories@[category as int].group,
    {
        self.categories[category].group
    }
}

fn ids_valid(ids: &Vec<usize>, n: usize) -> (r: bool)
    ensures
        r == valid_ids(ids@, n as nat),
{
    if ids.len() == 0 {
        return false;
    }
    let mut i: usize = 0;
    while i < ids.len()
        invariant
            i <= ids@.len(),
            forall|j: int| 0 <= j < i ==> #[trigger] ids@[j] < n,
        decreases ids@.len() - i,
    {
        if ids[i] >= n {
            return false;
        }
        i += 1;
    }
    true
}

/// The fallback records of each category, by category id.
#[derive(Clone, Debug)]
pub struct UnknownDictionary {
    pub entries: Vec<Vec<WordEntry>>,
}

impl UnknownDictionary {
    /// The fallback records of category `category`.
    pub fn entries_for(&self, category: usize) -> (r: &Vec<WordEntry>)
        requires
            category < self.entries@.len(),
        ensures
            r@ == self.entries@[category as int]@,
    {
        &self.entries[category]
    }
}

} // verus!

//! Small building blocks shared by the grammar and the tree enumerator.
use vstd::prelude::*;

verus! {

/// Reasons for which a grammar, or a part of one, cannot be constructed.
#[derive(Debug, Clone, Copy, PartialEq, Eq, Structural)]
pub enum GrammarError {
    /// A grammar needs at least one rule: the first one names the start symbol.
    EmptyGrammar,
    /// Rule names that begin with `@` are reserved.
    ReservedName,
    /// A character set must hold at least one character.
    EmptyCharacterSet,
}

/// Pigeonhole: a list of distinct integers that all lie in `[0, bound)` has
/// at most `bound` entries.
pub proof fn lemma_distinct_bounded(codes: Seq<int>, bound: int)
    requires
        0 <= bound,
        codes.no_duplicates(),
        forall|i: int| 0 <= i < codes.len() ==> 0 <= #[trigger] codes[i] < bound,
    ensures
        codes.len() <= bound,
{
    codes.unique_seq_to_set();
    vstd::set_lib::lemma_int_range(0, bound);
    assert(codes.to_set().subset_of(vstd::set_lib::set_int_range(0, bound))) by {
        assert forall|x: int| codes.to_set().contains(x) implies vstd::set_lib::set_int_range(
            0,
            bound,
        ).contains(x) by {
            let i = choose|i: int| 0 <= i < codes.len() && codes[i] == x;
        }
    }
    vstd::set_lib::lemma_len_subset(codes.to_set(), vstd::set_lib::set_int_range(0, bound));
}

/// A set of characters which always has at least one member.
///
/// The members are kept in the order in which they were first given, each
/// one once.
#[derive(Debug)]
pub struct NonEmptyHashSet {
    contents: Vec<char>,
}

impl View for NonEmptyHashSet {
    type V = Set<char>;

    closed spec fn view(&self) -> Set<char> {
        self.contents@.to_set()
    }
}

impl Clone for NonEmptyHashSet {
    fn clone(&self) -> (copy: Self)
        ensures
            copy@ == self@,
            copy.order() == self.order(),
    {
        proof {
            use_type_invariant(self);
        }
        let contents = self.contents.clone();
        assert(contents@ == self.contents@);
        NonEmptyHashSet { contents }
    }
}

/// True if `c` occurs in `chars`.
pub fn chars_contain(chars: &Vec<char>, c: char) -> (found: bool)
    ensures
        found == chars@.contains(c),
{
    let mut i: usize = 0;
    while i < chars.len()
        invariant
            i <= chars.len(),
            forall|k: int| 0 <= k < i ==> chars@[k] != c,
        decreases chars.len() - i,
    {
        if chars[i] == c {
            return true;
        }
        i += 1;
    }
    false
}

/// The characters of `chars`, each once, in the order in which they first
/// occur.
pub open spec fn first_occurrences(chars: Seq<char>) -> Seq<char>
    decreases chars.len(),
{
    if chars.len() == 0 {
        Seq::empty()
    } else {
        let before = first_occurrences(chars.drop_last());
        if before.contains(chars.last()) {
            before
        } else {
            before.push(chars.last())
        }
    }
}

/// The first occurrences are the same characters as the whole list, and no
/// character is among them twice.
pub proof fn lemma_first_occurrences(chars: Seq<char>)
    ensures
        first_occurrences(chars).no_duplicates(),
        first_occurrences(chars).to_set() == chars.to_set(),
        chars.len() > 0 ==> first_occurrences(chars).len() > 0,
    decreases chars.len(),
{
    if chars.len() > 0 {
        let init = chars.drop_last();
        let c = chars.last();
        let before = first_occurrences(init);
        let now = first_occurrences(chars);
        lemma_first_occurrences(init);
        assert forall|x: char| now.to_set().contains(x) <==> chars.to_set().contains(x) by {
            if now.contains(x) {
                let k = choose|k: int| 0 <= k < now.len() && now[k] == x;
                if k < before.len() {
                    assert(before.contains(x));
                    assert(init.to_set().contains(x));
                    let j = choose|j: int| 0 <= j < init.len() && init[j] == x;
                    assert(chars[j] == x);
                } else {
                    assert(chars[chars.len() - 1] == x);
                }
            }
            if chars.contains(x) {
                let j = choose|j: int| 0 <= j < chars.len() && chars[j] == x;
                if j < init.len() {
                    assert(init[j] == x);
                    assert(init.to_set().contains(x));
                    assert(before.contains(x));
                    let k = choose|k: int| 0 <= k < before.len() && before[k] == x;
                    assert(now[k] == x);
                } else if before.contains(c) {
                } else {
                    assert(now[before.len() as int] == x);
                }
            }
        }
        assert(now.to_set() =~= chars.to_set());
        if before.contains(c) {
            let k = choose|k: int| 0 <= k < before.len() && before[k] == c;
        }
    }
}

impl NonEmptyHashSet {
    #[verifier::type_invariant]
    spec fn inv(self) -> bool {
        self.contents@.len() > 0 && self.contents@.no_duplicates()
    }

    /// The members in the order in which the set keeps them.
    pub closed spec fn order(self) -> Seq<char> {
        self.contents@
    }

    /// Builds the set of the characters that occur in `contents`. The set
    /// keeps them in the order in which they first occur.
    ///
    /// Fails with [`GrammarError::EmptyCharacterSet`] exactly when `contents`
    /// is empty.
    pub fn new(contents: Vec<char>) -> (result: Result<Self, GrammarError>)
        ensures
            contents@.len() == 0 <==> result is Err,
            result matches Err(e) ==> e == GrammarError::EmptyCharacterSet,
            result matches Ok(set) ==> set@ == contents@.to_set() && set.order()
                == first_occurrences(contents@),
    {
        if contents.len() == 0 {
            return Err(GrammarError::EmptyCharacterSet);
        }
        let mut unique: Vec<char> = Vec::new();
        let mut i: usize = 0;
        while i < contents.len()
            invariant
                i <= contents.len(),
                unique@ == first_occurrences(contents@.take(i as int)),
            decreases contents.len() - i,
        {
            let c = contents[i];
            proof {
                assert(contents@.take(i + 1).drop_last() == contents@.take(i as int));
                assert(contents@.take(i + 1).last() == c);
            }
            if !chars_contain(&unique, c) {
                unique.push(c);
            }
            i += 1;
        }
        proof {
            assert(contents@.take(contents@.len() as int) == contents@);
            lemma_first_occurrences(contents@);
        }
        Ok(NonEmptyHashSet { contents: unique })
    }

    /// True if `c` is a member of the set.
    pub fn contains(&self, c: char) -> (found: bool)
        ensures
            found == self@.contains(c),
    {
        chars_contain(&self.contents, c)
    }

    /// The members, each once, in the order in which they were first given.
    pub fn members(&self) -> (chars: &Vec<char>)
        ensures
            chars@ == self.order(),
            chars@.to_set() == self@,
            chars@.no_duplicates(),
            chars@.len() > 0,
    {
        proof {
            use_type_invariant(self);
        }
        &self.contents
    }
}

/// A limit on the position at which a parse tree may end: exactly at a
/// position, or at a position or before it.
#[derive(Debug, Clone, Copy, PartialEq, Eq, Structural)]
pub enum Uncertain {
    /// The tree ends exactly at the position.
    Known(usize),
    /// The tree ends at the position or before it.
    Unknown(usize),
}

impl Uncertain {
    /// The position that the limit names.
    pub open spec fn bound(self) -> usize {
        match self {
            Uncertain::Known(end) => end,
            Uncertain::Unknown(end) => end,
        }
    }

    /// Whether a tree that ends at `end` keeps to the limit.
    pub open spec fn admits(self, end: int) -> bool {
        match self {
            Uncertain::Known(limit) => end == limit,
            Uncertain::Unknown(limit) => end <= limit,
        }
    }

    /// The limit for what stands before a tail of at least `tail`
    /// characters: it ends `tail` positions before the limit or earlier, and
    /// not before position 0.
    pub open spec fn minus_spec(self, tail: usize) -> Uncertain {
        if self.bound() >= tail {
            Uncertain::Unknown((self.bound() - tail) as usize)
        } else {
            Uncertain::Unknown(0)
        }
    }

    /// Decides whether a tree that ends at `end` keeps to the limit.
    pub fn allows(&self, end: usize) -> (allowed: bool)
        ensures
            allowed == self.admits(end as int),
    {
        match self {
            Uncertain::Known(limit) => end == *limit,
            Uncertain::Unknown(limit) => end <= *limit,
        }
    }

    /// The limit for what stands before a tail of at least `tail`
    /// characters.
    pub fn minus(self, tail: usize) -> (limit: Uncertain)
        ensures
            limit == self.minus_spec(tail),
    {
        let bound = match self {
            Uncertain::Known(end) => end,
            Uncertain::Unknown(end) => end,
        };
        if bound >= tail {
            Uncertain::Unknown(bound - tail)
        } else {
            Uncertain::Unknown(0)
        }
    }
}

} // verus!

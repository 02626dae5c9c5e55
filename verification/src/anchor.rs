//! Anchors for headings: a slug of the heading text, made unique within one
//! document by a numeric suffix.

use crate::text::{decimal, decimal_string, lemma_decimal_injective, lemma_decimal_value, texts};
use vstd::prelude::*;
use vstd::relations::injective_on;
use vstd::set_lib::*;
use vstd::string::*;

verus! {

/// The slug that `comrak::Anchorizer` makes of a heading text before it
/// looks at the anchors already given out.
pub uninterp spec fn slug(text: Seq<char>) -> Seq<char>;

/// `comrak::Anchorizer::anchorize` on a new anchorizer: with no anchor
/// given out yet, the result is the slug of the text, without a suffix.
#[verifier::external_body]
pub(crate) fn slugify(text: String) -> (base: String)
    ensures
        base@ == slug(text@),
{
    comrak::Anchorizer::new().anchorize(text)
}

/// The `k`-th anchor tried for a slug: the slug itself, then the slug with
/// `-1`, `-2`, ... appended.
pub open spec fn candidate(base: Seq<char>, k: nat) -> Seq<char> {
    if k == 0 {
        base
    } else {
        base + seq!['-'] + decimal(k)
    }
}

/// `k` is the lowest number whose candidate has not been given out.
pub open spec fn is_lowest_unused(base: Seq<char>, issued: Set<Seq<char>>, k: nat) -> bool {
    &&& !issued.contains(candidate(base, k))
    &&& forall|j: nat| j < k ==> issued.contains(#[trigger] candidate(base, j))
}

/// The lowest number whose candidate has not been given out.
pub open spec fn lowest_unused(base: Seq<char>, issued: Set<Seq<char>>) -> nat {
    choose|k: nat| is_lowest_unused(base, issued, k)
}

/// The anchor given to a slug when `issued` have been given out: the first
/// candidate that is not among them.
pub open spec fn unique_anchor(base: Seq<char>, issued: Set<Seq<char>>) -> Seq<char> {
    candidate(base, lowest_unused(base, issued))
}

/// Different numbers give different candidates.
pub proof fn lemma_candidate_injective(base: Seq<char>, a: nat, b: nat)
    requires
        candidate(base, a) == candidate(base, b),
    ensures
        a == b,
{
    lemma_decimal_value(a);
    lemma_decimal_value(b);
    if a != 0 && b != 0 {
        let prefix = base + seq!['-'];
        assert(candidate(base, a).skip(prefix.len() as int) == decimal(a));
        assert(candidate(base, b).skip(prefix.len() as int) == decimal(b));
        lemma_decimal_injective(a, b);
    }
}

/// At most one number is the lowest unused one.
pub proof fn lemma_lowest_unused_unique(base: Seq<char>, issued: Set<Seq<char>>, a: nat, b: nat)
    requires
        is_lowest_unused(base, issued, a),
        is_lowest_unused(base, issued, b),
    ensures
        a == b,
{
}

/// When the first `n` candidates are all among finitely many anchors given
/// out, at least `n` anchors have been given out.
pub proof fn lemma_candidates_fit(base: Seq<char>, issued: Set<Seq<char>>, n: nat)
    requires
        issued.finite(),
        forall|j: nat| j < n ==> issued.contains(#[trigger] candidate(base, j)),
    ensures
        n <= issued.len(),
{
    let numbers = set_int_range(0, n as int);
    let nth = |j: int| candidate(base, j as nat);
    let tried = numbers.map(nth);
    lemma_int_range(0, n as int);
    assert(injective_on(nth, numbers)) by {
        assert forall|a: int, b: int|
            numbers.contains(a) && numbers.contains(b) && #[trigger] nth(a) == #[trigger] nth(
                b,
            ) implies a == b by {
            lemma_candidate_injective(base, a as nat, b as nat);
        }
    }
    lemma_map_size(numbers, tried, nth);
    assert forall|s: Seq<char>| tried.contains(s) implies issued.contains(s) by {
        let j = choose|j: int| numbers.contains(j) && s == nth(j);
    }
    lemma_len_subset(tried, issued);
}

/// Among finitely many anchors given out, some candidate is free from `k`
/// on, where all candidates below `k` are taken.
proof fn lemma_search_ends(base: Seq<char>, issued: Set<Seq<char>>, k: nat)
    requires
        issued.finite(),
        forall|j: nat| j < k ==> issued.contains(#[trigger] candidate(base, j)),
    ensures
        exists|m: nat| is_lowest_unused(base, issued, m),
    decreases issued.len() + 1 - k,
{
    lemma_candidates_fit(base, issued, k);
    if issued.contains(candidate(base, k)) {
        lemma_candidates_fit(base, issued, k + 1);
        lemma_search_ends(base, issued, k + 1);
    } else {
        assert(is_lowest_unused(base, issued, k));
    }
}

/// Slug uniqueness: among finitely many anchors given out there is a lowest
/// unused number, and the anchor made with it is none of those given out.
pub proof fn lemma_unique_anchor_is_new(base: Seq<char>, issued: Set<Seq<char>>)
    requires
        issued.finite(),
    ensures
        is_lowest_unused(base, issued, lowest_unused(base, issued)),
        !issued.contains(unique_anchor(base, issued)),
{
    lemma_search_ends(base, issued, 0);
}

/// The anchors given out so far in one document. They are kept in the order
/// in which they were given out; what counts is the set of them.
pub struct Anchorizer {
    issued: Vec<String>,
}

impl View for Anchorizer {
    type V = Set<Seq<char>>;

    /// The set of anchors given out so far.
    closed spec fn view(&self) -> Set<Seq<char>> {
        texts(self.issued@).to_set()
    }
}

impl Anchorizer {
    /// An anchorizer that has given out no anchor.
    pub fn new() -> (fresh: Anchorizer)
        ensures
            fresh@ == Set::<Seq<char>>::empty(),
    {
        Anchorizer { issued: Vec::new() }
    }

    /// Whether the anchor has been given out.
    pub fn contains(&self, anchor: &String) -> (found: bool)
        ensures
            found == self@.contains(anchor@),
    {
        let mut i: usize = 0;
        while i < self.issued.len()
            invariant
                i <= self.issued.len(),
                forall|j: int| 0 <= j < i ==> texts(self.issued@)[j] != anchor@,
            decreases self.issued.len() - i,
        {
            if self.issued[i] == *anchor {
                assert(texts(self.issued@)[i as int] == anchor@);
                return true;
            }
            i += 1;
        }
        false
    }

    /// Gives out the anchor for a slug: the slug itself if it is free, else the
    /// slug with the lowest number appended that makes it free. The anchor is
    /// remembered.
    pub fn issue(&mut self, base: String) -> (anchor: String)
        ensures
            anchor@ == unique_anchor(base@, old(self)@),
            is_lowest_unused(base@, old(self)@, lowest_unused(base@, old(self)@)),
            !old(self)@.contains(anchor@),
            final(self)@ == old(self)@.insert(anchor@),
    {
        let mut uniq: u64 = 0;
        let mut anchor = base.clone();
        while self.contains(&anchor)
            invariant
                *self == *old(self),
                anchor@ == candidate(base@, uniq as nat),
                uniq <= self.issued.len(),
                forall|j: nat| j < uniq ==> self@.contains(#[trigger] candidate(base@, j)),
            decreases self.issued.len() - uniq,
        {
            proof {
                texts(self.issued@).lemma_cardinality_of_set();
                lemma_candidates_fit(base@, self@, (uniq + 1) as nat);
                reveal_strlit("-");
            }
            uniq += 1;
            anchor = base.clone();
            anchor.append("-");
            anchor.append(decimal_string(uniq).as_str());
        }
        proof {
            assert(is_lowest_unused(base@, self@, uniq as nat));
            lemma_lowest_unused_unique(
                base@,
                self@,
                uniq as nat,
                lowest_unused(base@, self@),
            );
        }
        self.issued.push(anchor.clone());
        proof {
            let before = texts(old(self).issued@);
            let after = texts(self.issued@);
            assert(after.to_set() =~= before.to_set().insert(anchor@)) by {
                assert forall|s: Seq<char>| after.to_set().contains(s) implies before.to_set().insert(
                    anchor@,
                ).contains(s) by {
                    let i = choose|i: int| 0 <= i < after.len() && after[i] == s;
                    if i < before.len() {
                        assert(before[i] == s);
                    }
                }
                assert forall|s: Seq<char>| before.to_set().insert(anchor@).contains(
                    s,
                ) implies after.to_set().contains(s) by {
                    if s == anchor@ {
                        assert(after[before.len() as int] == s);
                    } else {
                        let i = choose|i: int| 0 <= i < before.len() && before[i] == s;
                        assert(after[i] == s);
                    }
                }
            }
        }
        anchor
    }

    /// Gives out the anchor for a heading text: its slug, made unique among
    /// the anchors given out so far.
    pub fn anchorize(&mut self, header: String) -> (anchor: String)
        ensures
            anchor@ == unique_anchor(slug(header@), old(self)@),
            !old(self)@.contains(anchor@),
            final(self)@ == old(self)@.insert(anchor@),
    {
        let base = slugify(header);
        self.issue(base)
    }
}

} // verus!

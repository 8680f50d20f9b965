//! The set of open demo names, kept as a strictly increasing list so that
//! its listing, and so what is persisted of it, does not depend on the
//! order in which names were opened.
//!
//! A `BTreeSet<String>` would keep the same order, but vstd's specification
//! of `BTreeSet` holds only for key types whose comparison it has laws for
//! (`obeys_cmp`), and `String` is not one of them: not even membership after
//! an insert could be proved. Hence a sorted `Vec`, with the order of
//! `text_order` proved to be the one `str` compares by.

use vstd::prelude::*;

use crate::text_order::{
    compare_names, lemma_name_lt_asymmetric, lemma_name_lt_irreflexive, lemma_name_lt_total,
    lemma_name_lt_transitive, name_lt,
};

verus! {

/// The character sequences of a list of strings, position by position.
pub open spec fn views(v: Seq<String>) -> Seq<Seq<char>> {
    v.map_values(|s: String| s@)
}

/// Each name comes strictly before every name after it.
pub open spec fn strictly_sorted(k: Seq<Seq<char>>) -> bool {
    forall|i: int, j: int| 0 <= i < j < k.len() ==> name_lt(#[trigger] k[i], #[trigger] k[j])
}

/// The open set after `name` is marked open (`open == true`) or closed.
pub open spec fn with_open(s: Set<Seq<char>>, name: Seq<char>, open: bool) -> Set<Seq<char>> {
    if open {
        s.insert(name)
    } else {
        s.remove(name)
    }
}

/// The names of the demos that are open.
pub struct VisibilitySet {
    names: Vec<String>,
}

impl View for VisibilitySet {
    type V = Set<Seq<char>>;

    closed spec fn view(&self) -> Set<Seq<char>> {
        views(self.names@).to_set()
    }
}

impl VisibilitySet {
    /// The open names in increasing order: the listing that is persisted.
    pub closed spec fn listing(&self) -> Seq<Seq<char>> {
        views(self.names@)
    }

    pub closed spec fn wf(&self) -> bool {
        strictly_sorted(views(self.names@))
    }

    /// The listing holds each open name once, in increasing order.
    pub proof fn lemma_listing(&self)
        requires
            self.wf(),
        ensures
            strictly_sorted(self.listing()),
            self.listing().to_set() == self@,
            self.listing().len() == self@.len(),
    {
        let k = self.listing();
        assert(k.no_duplicates()) by {
            assert forall|i: int, j: int| 0 <= i < k.len() && 0 <= j < k.len() && i != j implies k[i]
                != k[j] by {
                if i < j {
                    lemma_name_lt_irreflexive(k[i]);
                    assert(name_lt(k[i], k[j]));
                } else {
                    lemma_name_lt_irreflexive(k[j]);
                    assert(name_lt(k[j], k[i]));
                }
            }
        }
        k.unique_seq_to_set();
    }

    /// A set with no name open.
    pub fn new() -> (r: VisibilitySet)
        ensures
            r.wf(),
            r@ == Set::<Seq<char>>::empty(),
    {
        let r = VisibilitySet { names: Vec::new() };
        assert(r@ =~= Set::<Seq<char>>::empty());
        r
    }

    /// Where `name` stands in the listing, or would stand if it were
    /// inserted, and whether it is there.
    fn position(&self, name: &str) -> (r: (usize, bool))
        requires
            self.wf(),
        ensures
            r.0 <= self.listing().len(),
            forall|j: int| 0 <= j < r.0 ==> name_lt(#[trigger] self.listing()[j], name@),
            r.1 == (r.0 < self.listing().len() && self.listing()[r.0 as int] == name@),
            !r.1 && r.0 < self.listing().len() ==> name_lt(name@, self.listing()[r.0 as int]),
            r.1 == self@.contains(name@),
    {
        let ghost k = self.listing();
        let mut lo: usize = 0;
        let mut hi: usize = self.names.len();
        while lo < hi
            invariant
                k == views(self.names@),
                strictly_sorted(k),
                lo <= hi <= k.len(),
                forall|j: int| 0 <= j < lo ==> name_lt(#[trigger] k[j], name@),
                forall|j: int| hi <= j < k.len() ==> !name_lt(#[trigger] k[j], name@),
            decreases hi - lo,
        {
            let mid: usize = lo + (hi - lo) / 2;
            let c = compare_names(self.names[mid].as_str(), name);
            if matches!(c, core::cmp::Ordering::Less) {
                proof {
                    assert forall|j: int| 0 <= j <= mid implies name_lt(#[trigger] k[j], name@) by {
                        if j < mid {
                            assert(name_lt(k[j], k[mid as int]));
                            lemma_name_lt_transitive(k[j], k[mid as int], name@);
                        }
                    }
                }
                lo = mid + 1;
            } else {
                proof {
                    assert forall|j: int| mid <= j < k.len() implies !name_lt(
                        #[trigger] k[j],
                        name@,
                    ) by {
                        if j > mid && name_lt(k[j], name@) {
                            assert(name_lt(k[mid as int], k[j]));
                            lemma_name_lt_transitive(k[mid as int], k[j], name@);
                        }
                    }
                }
                hi = mid;
            }
        }
        let found = lo < self.names.len() && matches!(
            compare_names(self.names[lo].as_str(), name),
            core::cmp::Ordering::Equal
        );
        proof {
            if lo < k.len() && !found {
                lemma_name_lt_total(k[lo as int], name@);
            }
            self.lemma_listing();
            if !found {
                assert forall|j: int| 0 <= j < k.len() implies k[j] != name@ by {
                    if j < lo {
                        lemma_name_lt_irreflexive(name@);
                    } else {
                        if j > lo {
                            assert(name_lt(k[lo as int], k[j]));
                            lemma_name_lt_transitive(name@, k[lo as int], k[j]);
                        }
                        lemma_name_lt_irreflexive(name@);
                    }
                }
                assert(!k.contains(name@));
            } else {
                assert(k[lo as int] == name@);
                assert(k.contains(name@));
            }
        }
        (lo, found)
    }

    /// Whether `name` is open.
    pub fn is_open(&self, name: &str) -> (r: bool)
        requires
            self.wf(),
        ensures
            r == self@.contains(name@),
    {
        self.position(name).1
    }

    /// How many names are open.
    pub fn len(&self) -> (r: usize)
        requires
            self.wf(),
        ensures
            r == self@.len(),
    {
        proof {
            self.lemma_listing();
        }
        self.names.len()
    }

    /// Marks `name` open or closed. Marking it as it already is changes nothing.
    pub fn set_open(&mut self, name: &str, open: bool)
        requires
            old(self).wf(),
        ensures
            final(self).wf(),
            final(self)@ == with_open(old(self)@, name@, open),
            old(self)@ == with_open(old(self)@, name@, open) ==> final(self).listing()
                == old(self).listing(),
    {
        let ghost k = self.listing();
        let (pos, found) = self.position(name);
        if open && !found {
            self.names.insert(pos, name.to_owned());
            proof {
                let k2 = views(self.names@);
                assert(k2 =~= k.insert(pos as int, name@));
                assert forall|i: int, j: int| 0 <= i < j < k2.len() implies name_lt(
                    #[trigger] k2[i],
                    #[trigger] k2[j],
                ) by {
                    if j < pos {
                        assert(k2[i] == k[i] && k2[j] == k[j]);
                    } else if j == pos {
                        assert(k2[i] == k[i]);
                    } else if i == pos {
                        assert(k2[j] == k[j - 1]);
                        if j - 1 > pos {
                            assert(name_lt(k[pos as int], k[j - 1]));
                            lemma_name_lt_transitive(name@, k[pos as int], k[j - 1]);
                        }
                    } else if i < pos {
                        assert(k2[i] == k[i] && k2[j] == k[j - 1]);
                        assert(name_lt(k[i], name@));
                        assert(name_lt(name@, k[pos as int]));
                        if j - 1 > pos {
                            assert(name_lt(k[pos as int], k[j - 1]));
                            lemma_name_lt_transitive(name@, k[pos as int], k[j - 1]);
                        }
                        lemma_name_lt_transitive(k[i], name@, k[j - 1]);
                    } else {
                        assert(k2[i] == k[i - 1] && k2[j] == k[j - 1]);
                    }
                }
                assert(k2.to_set() =~= k.to_set().insert(name@)) by {
                    assert forall|x: Seq<char>| k2.contains(x) implies k.contains(x) || x == name@ by {
                        let i = choose|i: int| 0 <= i < k2.len() && k2[i] == x;
                        if i < pos {
                            assert(k[i] == x);
                        } else if i > pos {
                            assert(k[i - 1] == x);
                        }
                    }
                    assert forall|x: Seq<char>| k.contains(x) || x == name@ implies k2.contains(x) by {
                        if x == name@ {
                            assert(k2[pos as int] == x);
                        } else {
                            let i = choose|i: int| 0 <= i < k.len() && k[i] == x;
                            if i < pos {
                                assert(k2[i] == x);
                            } else {
                                assert(k2[i + 1] == x);
                            }
                        }
                    }
                }
            }
        } else if !open && found {
            self.names.remove(pos);
            proof {
                let k2 = views(self.names@);
                assert(k2 =~= k.remove(pos as int));
                assert forall|i: int, j: int| 0 <= i < j < k2.len() implies name_lt(
                    #[trigger] k2[i],
                    #[trigger] k2[j],
                ) by {
                    if j < pos {
                        assert(k2[i] == k[i] && k2[j] == k[j]);
                    } else if i < pos {
                        assert(k2[i] == k[i] && k2[j] == k[j + 1]);
                    } else {
                        assert(k2[i] == k[i + 1] && k2[j] == k[j + 1]);
                    }
                }
                old(self).lemma_listing();
                assert(k2.to_set() =~= k.to_set().remove(name@)) by {
                    assert forall|x: Seq<char>| k2.contains(x) implies k.contains(x) && x != name@ by {
                        let i = choose|i: int| 0 <= i < k2.len() && k2[i] == x;
                        if i < pos {
                            assert(k[i] == x);
                            assert(name_lt(k[i], k[pos as int]));
                            lemma_name_lt_irreflexive(x);
                        } else {
                            assert(k[i + 1] == x);
                            assert(name_lt(k[pos as int], k[i + 1]));
                            lemma_name_lt_irreflexive(x);
                        }
                    }
                    assert forall|x: Seq<char>| k.contains(x) && x != name@ implies k2.contains(x) by {
                        let i = choose|i: int| 0 <= i < k.len() && k[i] == x;
                        if i < pos {
                            assert(k2[i] == x);
                        } else {
                            assert(i != pos);
                            assert(k2[i - 1] == x);
                        }
                    }
                }
            }
        } else {
            proof {
                if open {
                    assert(self@.insert(name@) =~= self@);
                } else {
                    assert(self@.remove(name@) =~= self@);
                }
            }
        }
    }
}

impl VisibilitySet {
    /// The open names in increasing order, as they are persisted.
    pub fn names(&self) -> (r: Vec<String>)
        requires
            self.wf(),
        ensures
            views(r@) == self.listing(),
    {
        let mut r: Vec<String> = Vec::new();
        let mut i: usize = 0;
        while i < self.names.len()
            invariant
                i <= self.names@.len(),
                r@.len() == i,
                views(r@) == views(self.names@).subrange(0, i as int),
            decreases self.names@.len() - i,
        {
            let c = self.names[i].clone();
            let ghost before = r@;
            r.push(c);
            proof {
                assert forall|j: int| 0 <= j < i implies #[trigger] r@[j]@ == self.names@[j]@ by {
                    assert(r@[j] == before[j]);
                    assert(views(before)[j] == views(self.names@).subrange(0, i as int)[j]);
                }
                assert(views(r@) =~= views(self.names@).subrange(0, i + 1));
            }
            i = i + 1;
        }
        proof {
            assert(views(r@) =~= views(self.names@));
        }
        r
    }

    /// The set holding each of `names`, in whatever order and with whatever
    /// repetitions they come; names that no demo carries are kept as they are.
    pub fn from_names(names: &Vec<String>) -> (r: VisibilitySet)
        ensures
            r.wf(),
            r@ == views(names@).to_set(),
    {
        let mut r = VisibilitySet::new();
        let mut i: usize = 0;
        while i < names.len()
            invariant
                i <= names@.len(),
                r.wf(),
                r@ == views(names@).subrange(0, i as int).to_set(),
            decreases names@.len() - i,
        {
            r.set_open(names[i].as_str(), true);
            proof {
                let a = views(names@).subrange(0, i as int);
                assert(views(names@).subrange(0, i + 1) =~= a.push(names@[i as int]@));
                a.lemma_push_to_set_commute(names@[i as int]@);
            }
            i = i + 1;
        }
        proof {
            assert(views(names@).subrange(0, names@.len() as int) =~= views(names@));
        }
        r
    }
}

/// Two strictly increasing lists of names that hold the same names are the
/// same list.
pub proof fn lemma_sorted_listing_unique(a: Seq<Seq<char>>, b: Seq<Seq<char>>)
    requires
        strictly_sorted(a),
        strictly_sorted(b),
        a.to_set() == b.to_set(),
    ensures
        a == b,
    decreases a.len(),
{
    if a.len() == 0 {
        if b.len() > 0 {
            assert(b.to_set().contains(b[0]));
        }
    } else if b.len() == 0 {
        assert(a.to_set().contains(a[0]));
    } else {
        assert(a.to_set().contains(a[0]));
        assert(b.to_set().contains(b[0]));
        let i = choose|i: int| 0 <= i < a.len() && a[i] == b[0];
        let j = choose|j: int| 0 <= j < b.len() && b[j] == a[0];
        if a[0] != b[0] {
            assert(i != 0 && j != 0);
            assert(name_lt(a[0], a[i]));
            assert(name_lt(b[0], b[j]));
            lemma_name_lt_asymmetric(a[0], b[0]);
        }
        let a1 = a.drop_first();
        let b1 = b.drop_first();
        assert forall|x: Seq<char>| a1.contains(x) implies b1.contains(x) by {
            let p = choose|p: int| 0 <= p < a1.len() && a1[p] == x;
            assert(name_lt(a[0], a[p + 1]));
            lemma_name_lt_irreflexive(x);
            assert(a.to_set().contains(x));
            let q = choose|q: int| 0 <= q < b.len() && b[q] == x;
            assert(q != 0);
            assert(b1[q - 1] == x);
        }
        assert forall|x: Seq<char>| b1.contains(x) implies a1.contains(x) by {
            let p = choose|p: int| 0 <= p < b1.len() && b1[p] == x;
            assert(name_lt(b[0], b[p + 1]));
            lemma_name_lt_irreflexive(x);
            assert(b.to_set().contains(x));
            let q = choose|q: int| 0 <= q < a.len() && a[q] == x;
            assert(q != 0);
            assert(a1[q - 1] == x);
        }
        assert(a1.to_set() =~= b1.to_set());
        lemma_sorted_listing_unique(a1, b1);
        assert(a =~= seq![a[0]] + a1);
        assert(b =~= seq![b[0]] + b1);
    }
}

/// Marking a name open (or closed) a second time changes nothing: the set,
/// and so its size and its members, are those after the first time.
pub proof fn lemma_set_open_idempotent(s: Set<Seq<char>>, name: Seq<char>, open: bool)
    ensures
        with_open(with_open(s, name, open), name, open) == with_open(s, name, open),
{
    if open {
        assert(s.insert(name).insert(name) =~= s.insert(name));
    } else {
        assert(s.remove(name).remove(name) =~= s.remove(name));
    }
}

/// Two sets with the same open names list them alike, whatever the order in
/// which the names were opened.
pub proof fn lemma_listing_canonical(a: VisibilitySet, b: VisibilitySet)
    requires
        a.wf(),
        b.wf(),
        a@ == b@,
    ensures
        a.listing() == b.listing(),
{
    a.lemma_listing();
    b.lemma_listing();
    lemma_sorted_listing_unique(a.listing(), b.listing());
}

/// A set restored from the listing of another holds exactly its names, and
/// lists them as it did.
pub proof fn lemma_round_trip(s: VisibilitySet, restored: VisibilitySet)
    requires
        s.wf(),
        restored.wf(),
        restored@ == s.listing().to_set(),
    ensures
        restored@ == s@,
        restored.listing() == s.listing(),
{
    s.lemma_listing();
    lemma_listing_canonical(s, restored);
}

/// Marks `key` open or closed in `open`; marking it as it already is
/// leaves the set as it was.
pub fn set_open(open: &mut VisibilitySet, key: &str, is_open: bool)
    requires
        old(open).wf(),
    ensures
        final(open).wf(),
        final(open)@ == with_open(old(open)@, key@, is_open),
{
    open.set_open(key, is_open);
}

} // verus!

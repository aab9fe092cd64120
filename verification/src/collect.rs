use vstd::prelude::*;

use crate::guid::{GUID, lex_lt, lemma_lex_lt_connected, lemma_lex_lt_irrefl, lemma_lex_lt_trans};

verus! {

/// The identifier byte strings held by a sequence of identifiers, in order.
pub open spec fn views_of(items: Seq<GUID>) -> Seq<Seq<u8>> {
    items.map_values(|g: GUID| g@)
}

/// Strictly increasing in lexicographic order: ascending and duplicate-free.
pub open spec fn sorted_unique(s: Seq<Seq<u8>>) -> bool {
    forall|i: int, j: int| 0 <= i < j < s.len() ==> lex_lt(#[trigger] s[i], #[trigger] s[j])
}

/// Insertion into an ascending sequence: a value already present is dropped,
/// a new one enters at its ordered position.
pub open spec fn sorted_insert(s: Seq<Seq<u8>>, g: Seq<u8>) -> Seq<Seq<u8>>
    decreases s.len(),
{
    if s.len() == 0 {
        seq![g]
    } else if lex_lt(s[0], g) {
        seq![s[0]] + sorted_insert(s.drop_first(), g)
    } else if s[0] == g {
        s
    } else {
        seq![g] + s
    }
}

/// The tail of an ascending sequence is ascending, and holds every value of
/// the whole but the head.
proof fn lemma_tail_sorted(s: Seq<Seq<u8>>)
    requires
        sorted_unique(s),
        s.len() > 0,
    ensures
        sorted_unique(s.drop_first()),
        s.drop_first().to_set() == s.to_set().remove(s[0]),
{
    let t = s.drop_first();
    assert forall|i: int, j: int| 0 <= i < j < t.len() implies lex_lt(#[trigger] t[i], #[trigger] t[j]) by {
        assert(t[i] == s[i + 1]);
        assert(t[j] == s[j + 1]);
    }
    assert forall|x: Seq<u8>| t.to_set().contains(x) implies s.to_set().remove(s[0]).contains(x) by {
        let i = choose|i: int| 0 <= i < t.len() && t[i] == x;
        assert(s[i + 1] == x);
        assert(s.contains(x));
        assert(lex_lt(s[0], s[i + 1]));
        if x == s[0] {
            lemma_lex_lt_irrefl(s[0]);
        }
    }
    assert forall|x: Seq<u8>| s.to_set().remove(s[0]).contains(x) implies t.to_set().contains(x) by {
        let i = choose|i: int| 0 <= i < s.len() && s[i] == x;
        assert(i != 0);
        assert(t[i - 1] == x);
        assert(t.contains(x));
    }
    assert(t.to_set() =~= s.to_set().remove(s[0]));
}

/// Inserting into an ascending sequence keeps it ascending, and the values
/// held afterwards are exactly the old ones and the new one.
pub proof fn lemma_sorted_insert_props(s: Seq<Seq<u8>>, g: Seq<u8>)
    requires
        sorted_unique(s),
    ensures
        sorted_unique(sorted_insert(s, g)),
        sorted_insert(s, g).to_set() == s.to_set().insert(g),
    decreases s.len(),
{
    let r = sorted_insert(s, g);
    if s.len() == 0 {
        assert(r[0] == g);
        assert(r.contains(g));
        assert forall|x: Seq<u8>| r.to_set().contains(x) implies s.to_set().insert(g).contains(x) by {
            let i = choose|i: int| 0 <= i < r.len() && r[i] == x;
            assert(x == g);
        }
        assert(r.to_set() =~= s.to_set().insert(g));
    } else if lex_lt(s[0], g) {
        let t = s.drop_first();
        lemma_tail_sorted(s);
        lemma_sorted_insert_props(t, g);
        let rt = sorted_insert(t, g);
        assert(r == seq![s[0]] + rt);
        assert forall|i: int, j: int| 0 <= i < j < r.len() implies lex_lt(#[trigger] r[i], #[trigger] r[j]) by {
            if i == 0 {
                let x = r[j];
                assert(rt[j - 1] == x);
                assert(rt.contains(x));
                assert(rt.to_set().contains(x));
                if x == g {
                    assert(lex_lt(s[0], x));
                } else {
                    assert(t.to_set().contains(x));
                    let k = choose|k: int| 0 <= k < t.len() && t[k] == x;
                    assert(s[k + 1] == x);
                    assert(lex_lt(s[0], s[k + 1]));
                }
            } else {
                assert(r[i] == rt[i - 1]);
                assert(r[j] == rt[j - 1]);
            }
        }
        assert forall|x: Seq<u8>| r.to_set().contains(x) implies s.to_set().insert(g).contains(x) by {
            let i = choose|i: int| 0 <= i < r.len() && r[i] == x;
            if i == 0 {
                assert(s[0] == x);
                assert(s.contains(x));
            } else {
                assert(rt[i - 1] == x);
                assert(rt.contains(x));
                assert(rt.to_set().contains(x));
                if x != g {
                    assert(t.to_set().contains(x));
                    let k = choose|k: int| 0 <= k < t.len() && t[k] == x;
                    assert(s[k + 1] == x);
                    assert(s.contains(x));
                }
            }
        }
        assert forall|x: Seq<u8>| s.to_set().insert(g).contains(x) implies r.to_set().contains(x) by {
            if x == g {
                assert(rt.to_set().contains(x));
                let k = choose|k: int| 0 <= k < rt.len() && rt[k] == x;
                assert(r[k + 1] == x);
                assert(r.contains(x));
            } else {
                let i = choose|i: int| 0 <= i < s.len() && s[i] == x;
                if i == 0 {
                    assert(r[0] == x);
                    assert(r.contains(x));
                } else {
                    assert(t[i - 1] == x);
                    assert(t.contains(x));
                    assert(t.to_set().contains(x));
                    assert(rt.to_set().contains(x));
                    let k = choose|k: int| 0 <= k < rt.len() && rt[k] == x;
                    assert(r[k + 1] == x);
                    assert(r.contains(x));
                }
            }
        }
        assert(r.to_set() =~= s.to_set().insert(g));
    } else if s[0] == g {
        assert(r == s);
        assert(s.contains(g));
        assert(s.to_set().contains(g));
        assert(s.to_set().insert(g) =~= s.to_set());
    } else {
        lemma_lex_lt_connected(s[0], g);
        assert(lex_lt(g, s[0]));
        assert(r == seq![g] + s);
        assert forall|i: int, j: int| 0 <= i < j < r.len() implies lex_lt(#[trigger] r[i], #[trigger] r[j]) by {
            if i == 0 {
                assert(r[j] == s[j - 1]);
                if j > 1 {
                    assert(lex_lt(s[0], s[j - 1]));
                    lemma_lex_lt_trans(g, s[0], s[j - 1]);
                }
            } else {
                assert(r[i] == s[i - 1]);
                assert(r[j] == s[j - 1]);
            }
        }
        assert forall|x: Seq<u8>| r.to_set().contains(x) implies s.to_set().insert(g).contains(x) by {
            let i = choose|i: int| 0 <= i < r.len() && r[i] == x;
            if i > 0 {
                assert(s[i - 1] == x);
                assert(s.contains(x));
            }
        }
        assert forall|x: Seq<u8>| s.to_set().insert(g).contains(x) implies r.to_set().contains(x) by {
            if x == g {
                assert(r[0] == x);
                assert(r.contains(x));
            } else {
                let i = choose|i: int| 0 <= i < s.len() && s[i] == x;
                assert(r[i + 1] == x);
                assert(r.contains(x));
            }
        }
        assert(r.to_set() =~= s.to_set().insert(g));
    }
}

/// An ascending duplicate-free sequence is determined by the set of values
/// it holds: two of them holding the same values are the same sequence.
pub proof fn lemma_sorted_unique_same_set(a: Seq<Seq<u8>>, b: Seq<Seq<u8>>)
    requires
        sorted_unique(a),
        sorted_unique(b),
        a.to_set() == b.to_set(),
    ensures
        a == b,
    decreases a.len(),
{
    if a.len() == 0 {
        if b.len() > 0 {
            assert(b.contains(b[0]));
            assert(a.to_set().contains(b[0]));
            assert(false);
        }
        assert(a =~= b);
    } else if b.len() == 0 {
        assert(a.contains(a[0]));
        assert(b.to_set().contains(a[0]));
        assert(false);
    } else {
        assert(a.contains(a[0]));
        assert(b.contains(b[0]));
        assert(b.to_set().contains(a[0]));
        assert(a.to_set().contains(b[0]));
        let j = choose|j: int| 0 <= j < b.len() && b[j] == a[0];
        let k = choose|k: int| 0 <= k < a.len() && a[k] == b[0];
        if j > 0 && k > 0 {
            assert(lex_lt(b[0], b[j]));
            assert(lex_lt(a[0], a[k]));
            lemma_lex_lt_trans(a[0], b[0], a[0]);
            lemma_lex_lt_irrefl(a[0]);
        }
        assert(a[0] == b[0]);
        lemma_tail_sorted(a);
        lemma_tail_sorted(b);
        lemma_sorted_unique_same_set(a.drop_first(), b.drop_first());
        assert forall|i: int| 0 <= i < a.len() implies a[i] == b[i] by {
            if i > 0 {
                assert(a.drop_first()[i - 1] == b.drop_first()[i - 1]);
                assert(a[i] == a.drop_first()[i - 1]);
                assert(b[i] == b.drop_first()[i - 1]);
            }
        }
        assert(a.len() == b.len());
        assert(a =~= b);
    }
}

/// A collection policy. One traversal routine feeds identifiers into either
/// concrete collection through this single insertion capability.
pub trait Insert: Sized {
    /// The identifier byte strings currently held, in iteration order.
    spec fn contents(&self) -> Seq<Seq<u8>>;

    /// What one insertion does to the held sequence.
    spec fn inserted(s: Seq<Seq<u8>>, g: Seq<u8>) -> Seq<Seq<u8>>;

    /// Feeds one identifier into the collection. Never fails: all validation
    /// has already happened when the identifier was constructed.
    fn insert(&mut self, g: GUID)
        ensures
            final(self).contents() == Self::inserted(old(self).contents(), g@),
    ;
}

/// Append-only sequence: discovery order preserved, duplicates retained.
pub struct OrderedList {
    items: Vec<GUID>,
}

impl OrderedList {
    pub fn new() -> (r: OrderedList)
        ensures
            r.contents() == Seq::<Seq<u8>>::empty(),
    {
        let r = OrderedList { items: Vec::new() };
        proof {
            assert(r.contents() =~= Seq::<Seq<u8>>::empty());
        }
        r
    }

    /// Hands the accumulated identifiers out, in insertion order.
    pub fn into_vec(self) -> (r: Vec<GUID>)
        ensures
            views_of(r@) == self.contents(),
    {
        self.items
    }
}

impl Insert for OrderedList {
    closed spec fn contents(&self) -> Seq<Seq<u8>> {
        views_of(self.items@)
    }

    open spec fn inserted(s: Seq<Seq<u8>>, g: Seq<u8>) -> Seq<Seq<u8>> {
        s.push(g)
    }

    fn insert(&mut self, g: GUID) {
        let ghost c0 = views_of(self.items@);
        let ghost gv = g@;
        self.items.push(g);
        proof {
            assert(views_of(self.items@) =~= c0.push(gv));
        }
    }
}

/// Ordered set: ascending lexicographic order, duplicates collapsed.
pub struct SortedSet {
    items: Vec<GUID>,
}

impl SortedSet {
    /// The held identifiers are always ascending and duplicate-free.
    #[verifier::type_invariant]
    spec fn inv(self) -> bool {
        sorted_unique(views_of(self.items@))
    }

    pub fn new() -> (r: SortedSet)
        ensures
            r.contents() == Seq::<Seq<u8>>::empty(),
    {
        let r = SortedSet { items: Vec::new() };
        proof {
            assert(r.contents() =~= Seq::<Seq<u8>>::empty());
        }
        r
    }

    /// Hands the identifiers out, ascending, each exactly once.
    pub fn into_vec(self) -> (r: Vec<GUID>)
        ensures
            views_of(r@) == self.contents(),
            sorted_unique(self.contents()),
    {
        proof {
            use_type_invariant(&self);
        }
        self.items
    }
}

impl Insert for SortedSet {
    closed spec fn contents(&self) -> Seq<Seq<u8>> {
        views_of(self.items@)
    }

    open spec fn inserted(s: Seq<Seq<u8>>, g: Seq<u8>) -> Seq<Seq<u8>> {
        sorted_insert(s, g)
    }

    fn insert(&mut self, g: GUID) {
        proof {
            use_type_invariant(&*self);
        }
        let ghost s0 = views_of(self.items@);
        let ghost gv = g@;
        let mut items: Vec<GUID> = Vec::new();
        core::mem::swap(&mut items, &mut self.items);
        let n = items.len();
        let mut p: usize = 0;
        let mut stop = false;
        while !stop && p < n
            invariant
                0 <= p <= n,
                n == items@.len(),
                views_of(items@) == s0,
                sorted_unique(s0),
                g@ == gv,
                forall|j: int| 0 <= j < p ==> lex_lt(#[trigger] s0[j], gv),
                stop ==> p < n && !lex_lt(s0[p as int], gv),
            decreases n - p, (if stop { 0int } else { 1int }),
        {
            if items[p].precedes(&g) {
                assert(s0[p as int] == items@[p as int]@);
                p += 1;
            } else {
                stop = true;
            }
        }
        if stop && items[p].equals(&g) {
            proof {
                assert(s0[p as int] == gv);
                assert(s0.contains(gv));
                assert(s0.to_set().contains(gv));
                assert(s0.to_set().insert(gv) =~= s0.to_set());
                lemma_sorted_insert_props(s0, gv);
                lemma_sorted_unique_same_set(sorted_insert(s0, gv), s0);
            }
            self.items = items;
            return;
        }
        let ghost items0 = items@;
        items.insert(p, g);
        proof {
            let s1 = views_of(items@);
            items0.insert_ensures(p as int, items@[p as int]);
            s0.insert_ensures(p as int, gv);
            assert forall|x: int| 0 <= x < s1.len() implies s1[x] == s0.insert(p as int, gv)[x] by {
                assert(s1[x] == items@[x]@);
                if x < p {
                    assert(items@[x] == items0[x]);
                } else if x == p {
                    assert(items@[p as int]@ == gv);
                } else {
                    assert(items@[x] == items0[x - 1]);
                }
            }
            assert(s1 =~= s0.insert(p as int, gv));
            if p < n {
                assert(!lex_lt(s0[p as int], gv));
                assert(s0[p as int] != gv);
                lemma_lex_lt_connected(s0[p as int], gv);
                assert(lex_lt(gv, s0[p as int]));
            }
            assert forall|k: int| p <= k < n implies lex_lt(gv, #[trigger] s0[k]) by {
                if k > p {
                    assert(lex_lt(s0[p as int], s0[k]));
                    lemma_lex_lt_trans(gv, s0[p as int], s0[k]);
                }
            }
            assert forall|i: int, j: int| 0 <= i < j < s1.len() implies lex_lt(
                #[trigger] s1[i],
                #[trigger] s1[j],
            ) by {
                if j < p {
                    assert(s1[i] == s0[i] && s1[j] == s0[j]);
                } else if j == p {
                    assert(s1[i] == s0[i] && s1[j] == gv);
                } else if i < p {
                    assert(s1[i] == s0[i] && s1[j] == s0[j - 1]);
                    if j - 1 == i {
                        assert(i < p && p <= j - 1);
                        assert(false);
                    }
                } else if i == p {
                    assert(s1[i] == gv && s1[j] == s0[j - 1]);
                } else {
                    assert(s1[i] == s0[i - 1] && s1[j] == s0[j - 1]);
                }
            }
            assert(sorted_unique(s1));
            assert forall|x: Seq<u8>| s1.to_set().contains(x) implies s0.to_set().insert(gv).contains(x) by {
                let i = choose|i: int| 0 <= i < s1.len() && s1[i] == x;
                if i < p {
                    assert(s0[i] == x);
                    assert(s0.contains(x));
                } else if i > p {
                    assert(s0[i - 1] == x);
                    assert(s0.contains(x));
                }
            }
            assert forall|x: Seq<u8>| s0.to_set().insert(gv).contains(x) implies s1.to_set().contains(x) by {
                if x == gv {
                    assert(s1[p as int] == x);
                    assert(s1.contains(x));
                } else {
                    let i = choose|i: int| 0 <= i < s0.len() && s0[i] == x;
                    if i < p {
                        assert(s1[i] == x);
                    } else {
                        assert(s1[i + 1] == x);
                    }
                    assert(s1.contains(x));
                }
            }
            assert(s1.to_set() =~= s0.to_set().insert(gv));
            lemma_sorted_insert_props(s0, gv);
            lemma_sorted_unique_same_set(s1, sorted_insert(s0, gv));
        }
        self.items = items;
    }
}

} // verus!

use vstd::prelude::*;
use crate::expr::{MExpr, Expr};

verus! {

/// What a match assigns to the slots of one kind: slot id to subexpression.
///
/// Its value is a map from slot ids to expression values (`Expr`), so two bindings agree
/// where their subexpressions are the same tree. A `HashMap<u32, MExpr>` would be viewed as a
/// map to `MExpr` values, whose spec equality compares the children's vectors rather than
/// their contents, and merging would have to walk it in an order the map leaves open.
#[derive(Debug)]
pub struct Bindings {
    entries: Vec<(u32, MExpr)>,
}

/// The map that a list of assignments gives when later ones override earlier ones.
pub open spec fn entries_map(s: Seq<(u32, MExpr)>) -> Map<u32, Expr>
    decreases s.len(),
{
    if s.len() == 0 {
        Map::empty()
    } else {
        entries_map(s.subrange(0, s.len() - 1)).insert(s[s.len() - 1].0, s[s.len() - 1].1@)
    }
}

/// Two assignments agree on every slot that both bind.
pub open spec fn compatible(a: Map<u32, Expr>, b: Map<u32, Expr>) -> bool {
    forall|k: u32| a.contains_key(k) && b.contains_key(k) ==> a[k] == b[k]
}

/// The union of two assignments, or `None` where they disagree on a slot.
pub open spec fn merge_maps(a: Map<u32, Expr>, b: Map<u32, Expr>) -> Option<Map<u32, Expr>> {
    if compatible(a, b) {
        Some(a.union_prefer_right(b))
    } else {
        None
    }
}

proof fn lemma_entries_prefix(s: Seq<(u32, MExpr)>, i: int, k: u32)
    requires
        0 <= i <= s.len(),
        forall|j: int| i <= j < s.len() ==> (#[trigger] s[j]).0 != k,
    ensures
        entries_map(s).contains_key(k) == entries_map(s.subrange(0, i)).contains_key(k),
        entries_map(s).contains_key(k) ==> entries_map(s)[k] == entries_map(s.subrange(0, i))[k],
    decreases s.len() - i,
{
    if i == s.len() {
        assert(s.subrange(0, i) =~= s);
    } else {
        let p = s.subrange(0, s.len() - 1);
        assert(forall|j: int| 0 <= j < p.len() ==> p[j] == s[j]);
        lemma_entries_prefix(p, i, k);
        assert(p.subrange(0, i) =~= s.subrange(0, i));
    }
}

proof fn lemma_entries_contains(s: Seq<(u32, MExpr)>, j: int)
    requires
        0 <= j < s.len(),
    ensures
        entries_map(s).contains_key(s[j].0),
    decreases s.len(),
{
    if j < s.len() - 1 {
        let p = s.subrange(0, s.len() - 1);
        lemma_entries_contains(p, j);
    }
}

proof fn lemma_entries_concat(a: Seq<(u32, MExpr)>, b: Seq<(u32, MExpr)>)
    ensures
        entries_map(a + b) == entries_map(a).union_prefer_right(entries_map(b)),
    decreases b.len(),
{
    if b.len() == 0 {
        assert(a + b =~= a);
        assert(entries_map(a).union_prefer_right(Map::empty()) =~= entries_map(a));
    } else {
        let bp = b.subrange(0, b.len() - 1);
        lemma_entries_concat(a, bp);
        assert((a + b).subrange(0, (a + b).len() - 1) =~= a + bp);
        assert(entries_map(a + b) =~= entries_map(a).union_prefer_right(entries_map(b)));
    }
}

proof fn lemma_entries_key(s: Seq<(u32, MExpr)>, k: u32)
    requires
        entries_map(s).contains_key(k),
    ensures
        exists|j: int| 0 <= j < s.len() && (#[trigger] s[j]).0 == k,
    decreases s.len(),
{
    let p = s.subrange(0, s.len() - 1);
    if s[s.len() - 1].0 != k {
        lemma_entries_key(p, k);
        let j = choose|j: int| 0 <= j < p.len() && (#[trigger] p[j]).0 == k;
        assert(s[j] == p[j]);
    }
}

impl View for Bindings {
    type V = Map<u32, Expr>;

    closed spec fn view(&self) -> Map<u32, Expr> {
        entries_map(self.entries@)
    }
}

impl Bindings {
    /// No slot bound.
    pub fn new() -> (r: Bindings)
        ensures
            r@ == Map::<u32, Expr>::empty(),
    {
        Bindings { entries: Vec::new() }
    }

    /// One slot bound.
    pub fn single(key: u32, value: MExpr) -> (r: Bindings)
        ensures
            r@ == Map::<u32, Expr>::empty().insert(key, value@),
    {
        let mut entries: Vec<(u32, MExpr)> = Vec::new();
        entries.push((key, value));
        proof {
            assert(entries@.subrange(0, 0) =~= Seq::<(u32, MExpr)>::empty());
            assert(entries_map(Seq::<(u32, MExpr)>::empty()) == Map::<u32, Expr>::empty());
            assert(entries_map(entries@) =~= Map::<u32, Expr>::empty().insert(key, value@));
        }
        Bindings { entries }
    }

    /// What the slot is bound to, if anything.
    pub fn get(&self, key: &u32) -> (r: Option<&MExpr>)
        ensures
            r is Some == self@.contains_key(*key),
            r is Some ==> r->0@ == self@[*key],
    {
        let mut i: usize = self.entries.len();
        while i > 0
            invariant
                i <= self.entries@.len(),
                forall|j: int| i <= j < self.entries@.len() ==> (#[trigger] self.entries@[j]).0 != *key,
            decreases i,
        {
            if self.entries[i - 1].0 == *key {
                proof {
                    let s = self.entries@;
                    lemma_entries_prefix(s, i as int, *key);
                    assert(s.subrange(0, i as int).subrange(0, i - 1) =~= s.subrange(0, i - 1));
                }
                return Some(&self.entries[i - 1].1);
            }
            i = i - 1;
        }
        proof {
            lemma_entries_prefix(self.entries@, 0, *key);
        }
        None
    }

    /// The bound slots, each once.
    pub fn slots(&self) -> (r: Vec<u32>)
        ensures
            forall|k: u32| r@.contains(k) == self@.contains_key(k),
            r@.no_duplicates(),
    {
        let mut out: Vec<u32> = Vec::new();
        let mut i: usize = 0;
        while i < self.entries.len()
            invariant
                i <= self.entries@.len(),
                out@.no_duplicates(),
                forall|k: u32| out@.contains(k) == (exists|j: int| 0 <= j < i && (#[trigger] self.entries@[j]).0 == k),
            decreases self.entries@.len() - i,
        {
            let k = self.entries[i].0;
            let mut seen = false;
            let mut m: usize = 0;
            while m < out.len()
                invariant
                    m <= out@.len(),
                    seen == (exists|x: int| 0 <= x < m && out@[x] == k),
                decreases out@.len() - m,
            {
                if out[m] == k {
                    seen = true;
                }
                m = m + 1;
            }
            let ghost old_out = out@;
            if !seen {
                out.push(k);
            }
            proof {
                assert forall|k2: u32| k2 != k implies out@.contains(k2) == old_out.contains(k2) by {
                    if out@.contains(k2) {
                        let x = choose|x: int| 0 <= x < out@.len() && out@[x] == k2;
                        assert(x < old_out.len());
                        assert(old_out[x] == k2);
                    }
                    if old_out.contains(k2) {
                        let x = choose|x: int| 0 <= x < old_out.len() && old_out[x] == k2;
                        assert(out@[x] == k2);
                    }
                }
                assert forall|k2: u32| out@.contains(k2) == (exists|j: int| 0 <= j < i + 1 && (#[trigger] self.entries@[j]).0 == k2) by {
                    if k2 == k {
                        assert(self.entries@[i as int].0 == k);
                        if seen {
                            let x = choose|x: int| 0 <= x < out@.len() && out@[x] == k;
                            assert(out@.contains(k));
                        } else {
                            assert(out@[out@.len() - 1] == k);
                        }
                    } else {
                        if out@.contains(k2) {
                            assert(old_out.contains(k2));
                            let j = choose|j: int| 0 <= j < i && (#[trigger] self.entries@[j]).0 == k2;
                            assert(0 <= j < i + 1 && self.entries@[j].0 == k2);
                        }
                        if exists|j: int| 0 <= j < i + 1 && (#[trigger] self.entries@[j]).0 == k2 {
                            let j = choose|j: int| 0 <= j < i + 1 && (#[trigger] self.entries@[j]).0 == k2;
                            assert(j != i);
                            assert(0 <= j < i && self.entries@[j].0 == k2);
                            assert(old_out.contains(k2));
                        }
                    }
                }
            }
            i = i + 1;
        }
        proof {
            assert forall|k: u32| out@.contains(k) == self@.contains_key(k) by {
                if self@.contains_key(k) {
                    lemma_entries_key(self.entries@, k);
                }
                if out@.contains(k) {
                    let j = choose|j: int| 0 <= j < self.entries@.len() && (#[trigger] self.entries@[j]).0 == k;
                    lemma_entries_contains(self.entries@, j);
                }
            }
        }
        out
    }

    /// Whether no slot is bound.
    pub fn is_empty(&self) -> (r: bool)
        ensures
            r == (self@ == Map::<u32, Expr>::empty()),
    {
        let r = self.entries.len() == 0;
        proof {
            if !r {
                let s = self.entries@;
                assert(self@.contains_key(s[s.len() - 1].0));
            }
        }
        r
    }
}

/// Adds the assignments of `other` to `map`. Fails, leaving `map` as it was, where the two
/// bind one slot to different subexpressions; a slot bound to the same subexpression in
/// both is accepted.
pub fn merge(map: &mut Bindings, other: Bindings) -> (r: Result<(), ()>)
    ensures
        r is Ok == compatible(old(map)@, other@),
        r is Ok ==> final(map)@ == old(map)@.union_prefer_right(other@),
        r is Err ==> final(map)@ == old(map)@,
{
    let n = other.entries.len();
    let mut j: usize = 0;
    while j < n
        invariant
            n == other.entries@.len(),
            j <= n,
            forall|jj: int| 0 <= jj < j ==> #[trigger] map@.contains_key(other.entries@[jj].0)
                ==> map@[other.entries@[jj].0] == other@[other.entries@[jj].0],
        decreases n - j,
    {
        let k = other.entries[j].0;
        proof { lemma_entries_contains(other.entries@, j as int); }
        match (map.get(&k), other.get(&k)) {
            (Some(a), Some(b)) => {
                if !a.eq(b) {
                    return Err(());
                }
            },
            _ => {},
        }
        j = j + 1;
    }
    proof {
        assert forall|k: u32| map@.contains_key(k) && other@.contains_key(k) implies map@[k] == other@[k] by {
            lemma_entries_prefix(other.entries@, other.entries@.len() as int, k);
            if forall|jj: int| 0 <= jj < n ==> (#[trigger] other.entries@[jj]).0 != k {
                lemma_entries_prefix(other.entries@, 0, k);
            }
        }
    }
    let ghost before = map.entries@;
    let mut entries = other.entries;
    map.entries.append(&mut entries);
    proof {
        lemma_entries_concat(before, other.entries@);
    }
    Ok(())
}

} // verus!

use vstd::prelude::*;

verus! {

/// The nesting depth after the characters, or `None` once a closing delimiter has no
/// opening one to match.
pub open spec fn depth_after(s: Seq<char>, open: char, close: char) -> Option<nat>
    decreases s.len(),
{
    if s.len() == 0 {
        Some(0)
    } else {
        let c = s[s.len() - 1];
        match depth_after(s.subrange(0, s.len() - 1), open, close) {
            None => None,
            Some(d) => if c == open {
                Some(d + 1)
            } else if c == close {
                if d == 0 {
                    None
                } else {
                    Some((d - 1) as nat)
                }
            } else {
                Some(d)
            },
        }
    }
}

/// The character at `i` is no delimiter and stands outside every pair of delimiters.
pub open spec fn at_depth0(s: Seq<char>, i: int, open: char, close: char) -> bool {
    &&& depth_after(s.subrange(0, i), open, close) == Some(0nat)
    &&& s[i] != open
    &&& s[i] != close
}

/// The positions, in characters, of the characters outside every pair of delimiters for
/// which `to_find` holds, in increasing order. Empty where a closing delimiter has no
/// opening one to match.
pub fn find_depth0<F>(input: &str, to_find: F, delim_start: char, delim_end: char) -> (r: Vec<usize>)
    where
        F: Fn(char) -> bool,
    requires
        forall|c: char| to_find.requires((c,)),
    ensures
        depth_after(input@, delim_start, delim_end) is None ==> r@.len() == 0,
        depth_after(input@, delim_start, delim_end) is Some ==> {
            &&& forall|k: int| 0 <= k < r@.len() ==> (#[trigger] r@[k]) < input@.len()
                && at_depth0(input@, r@[k] as int, delim_start, delim_end)
                && to_find.ensures((input@[r@[k] as int],), true)
            &&& forall|k1: int, k2: int| 0 <= k1 < k2 < r@.len() ==> r@[k1] < r@[k2]
            &&& forall|i: int| 0 <= i < input@.len() && at_depth0(input@, i, delim_start, delim_end)
                && !r@.contains(i as usize) ==> to_find.ensures((input@[i],), false)
        },
{
    let n = input.unicode_len();
    let mut depth: usize = 0;
    let mut res: Vec<usize> = Vec::new();
    let mut i: usize = 0;
    while i < n
        invariant
            n == input@.len(),
            i <= n,
            forall|c: char| to_find.requires((c,)),
            depth_after(input@.subrange(0, i as int), delim_start, delim_end) == Some(depth as nat),
            depth <= i,
            forall|k: int| 0 <= k < res@.len() ==> (#[trigger] res@[k]) < i
                && at_depth0(input@, res@[k] as int, delim_start, delim_end)
                && to_find.ensures((input@[res@[k] as int],), true),
            forall|k1: int, k2: int| 0 <= k1 < k2 < res@.len() ==> res@[k1] < res@[k2],
            forall|j: int| 0 <= j < i && at_depth0(input@, j, delim_start, delim_end)
                && !res@.contains(j as usize) ==> to_find.ensures((input@[j],), false),
        decreases n - i,
    {
        let ch = input.get_char(i);
        let ghost pre = input@.subrange(0, i as int);
        let ghost next = input@.subrange(0, i as int + 1);
        proof {
            assert(next.subrange(0, i as int) =~= pre);
        }
        if ch == delim_start {
            depth = depth + 1;
        } else if ch == delim_end {
            if depth == 0 {
                proof {
                    lemma_depth_fails(input@, i as int + 1, delim_start, delim_end);
                }
                return Vec::new();
            }
            depth = depth - 1;
        } else if depth == 0 {
            let found = to_find(ch);
            if found {
                let ghost old_res = res@;
                res.push(i);
                proof {
                    assert(res@[res@.len() - 1] == i);
                    assert forall|j: int| 0 <= j <= i && at_depth0(input@, j, delim_start, delim_end)
                        && !res@.contains(j as usize) implies to_find.ensures((input@[j],), false) by {
                        if j == i {
                            assert(res@.contains(i));
                        } else if old_res.contains(j as usize) {
                            let k = choose|k: int| 0 <= k < old_res.len() && old_res[k] == j as usize;
                            assert(res@[k] == j as usize);
                            assert(res@.contains(j as usize));
                        }
                    }
                }
            }
        }
        i = i + 1;
    }
    proof {
        assert(input@.subrange(0, n as int) =~= input@);
    }
    res
}

/// Once the depth fails, it stays failed for every longer prefix.
pub proof fn lemma_depth_fails(s: Seq<char>, i: int, open: char, close: char)
    requires
        0 <= i <= s.len(),
        depth_after(s.subrange(0, i), open, close) is None,
    ensures
        depth_after(s, open, close) is None,
    decreases s.len() - i,
{
    if i < s.len() {
        let next = s.subrange(0, i + 1);
        assert(next.subrange(0, i) =~= s.subrange(0, i));
        lemma_depth_fails(s, i + 1, open, close);
    } else {
        assert(s.subrange(0, i) =~= s);
    }
}

} // verus!

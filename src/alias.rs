//! Carrying group aliases over when the groups are rebuilt: a group of the
//! new layout inherits the alias of an old group when the sorted member names
//! of the one are an ordered subsequence of the other's.
use vstd::prelude::*;
use crate::model::strs_view;

verus! {

/// `f` places each element of `x` at a strictly later position of `y`.
pub open spec fn embeds<T>(f: Seq<int>, x: Seq<T>, y: Seq<T>) -> bool {
    &&& f.len() == x.len()
    &&& forall|k: int|
        #![trigger f[k]]
        0 <= k < f.len() ==> 0 <= f[k] && f[k] < y.len() && y[f[k]] == x[k]
    &&& forall|k: int, l: int| 0 <= k < l < f.len() ==> f[k] < f[l]
}

/// `x` is an order-preserving subsequence of `y`.
pub open spec fn is_subseq<T>(x: Seq<T>, y: Seq<T>) -> bool {
    exists|f: Seq<int>| #[trigger] embeds(f, x, y)
}

proof fn lemma_subseq_prefix<T>(x: Seq<T>, y: Seq<T>, k: int)
    requires
        is_subseq(x, y),
        0 <= k <= x.len(),
    ensures
        is_subseq(x.take(k), y),
{
    let f = choose|f: Seq<int>| #[trigger] embeds(f, x, y);
    assert(embeds(f.take(k), x.take(k), y));
}

proof fn lemma_subseq_widen<T>(x: Seq<T>, y: Seq<T>, p: int, q: int)
    requires
        0 <= p <= q <= y.len(),
        is_subseq(x, y.take(p)),
    ensures
        is_subseq(x, y.take(q)),
{
    let f = choose|f: Seq<int>| #[trigger] embeds(f, x, y.take(p));
    assert(embeds(f, x, y.take(q)));
}

proof fn lemma_subseq_nonempty_of_empty<T>(x: Seq<T>, y: Seq<T>)
    requires
        x.len() > 0,
        y.len() == 0,
    ensures
        !is_subseq(x, y),
{
    if is_subseq(x, y) {
        let f = choose|f: Seq<int>| #[trigger] embeds(f, x, y);
        assert(embeds(f, x, y));
        assert(f.len() > 0);
        assert(f[0] < y.len());
    }
}

proof fn lemma_subseq_extend<T>(x: Seq<T>, y: Seq<T>, ci: int, pi: int)
    requires
        0 <= ci < x.len(),
        0 <= pi < y.len(),
        x[ci] == y[pi],
        is_subseq(x.take(ci), y.take(pi)),
    ensures
        is_subseq(x.take(ci + 1), y.take(pi + 1)),
{
    let f = choose|f: Seq<int>| #[trigger] embeds(f, x.take(ci), y.take(pi));
    let g = f.push(pi);
    assert(embeds(g, x.take(ci + 1), y.take(pi + 1)));
}

/// When `x[..ci+1]` does not fit in `y[..pi]`, it does not fit in `y[..pi+1]`
/// unless its last element is placed at `pi`.
proof fn lemma_subseq_step<T>(x: Seq<T>, y: Seq<T>, ci: int, pi: int)
    requires
        0 <= ci < x.len(),
        0 <= pi < y.len(),
        !is_subseq(x.take(ci + 1), y.take(pi)),
    ensures
        x[ci] != y[pi] ==> !is_subseq(x.take(ci + 1), y.take(pi + 1)),
        x[ci] == y[pi] && ci + 1 < x.len() ==> !is_subseq(x.take(ci + 2), y.take(pi + 1)),
{
    if x[ci] != y[pi] && is_subseq(x.take(ci + 1), y.take(pi + 1)) {
        let f = choose|f: Seq<int>| #[trigger] embeds(f, x.take(ci + 1), y.take(pi + 1));
        assert(f[ci] != pi);
        assert forall|k: int| 0 <= k < f.len() implies f[k] < pi by {
            if k < ci {
                assert(f[k] < f[ci]);
            }
        }
        assert(embeds(f, x.take(ci + 1), y.take(pi)));
    }
    if x[ci] == y[pi] && ci + 1 < x.len() && is_subseq(x.take(ci + 2), y.take(pi + 1)) {
        let f = choose|f: Seq<int>| #[trigger] embeds(f, x.take(ci + 2), y.take(pi + 1));
        let g = f.take(ci + 1);
        assert forall|k: int| 0 <= k < g.len() implies g[k] < pi by {
            assert(f[k] < f[ci + 1]);
        }
        assert(embeds(g, x.take(ci + 1), y.take(pi)));
    }
}

/// Returns whether `child` is an ordered subsequence of `parent`, by a
/// two-pointer walk.
pub fn is_subset(child: &[String], parent: &[String]) -> (r: bool)
    ensures
        r == is_subseq(strs_view(child@), strs_view(parent@)),
{
    let ghost x = strs_view(child@);
    let ghost y = strs_view(parent@);
    let child_len = child.len();
    let parent_len = parent.len();
    let mut child_idx: usize = 0;
    let mut parent_idx: usize = 0;
    proof {
        assert(embeds(Seq::<int>::empty(), x.take(0), y.take(0)));
        if child_len > 0 {
            lemma_subseq_nonempty_of_empty(x.take(1), y.take(0));
        }
    }
    while child_idx < child_len && parent_idx < parent_len
        invariant
            child_len == child@.len(),
            parent_len == parent@.len(),
            x == strs_view(child@),
            y == strs_view(parent@),
            child_idx <= child_len,
            parent_idx <= parent_len,
            is_subseq(x.take(child_idx as int), y.take(parent_idx as int)),
            child_idx < child_len ==> !is_subseq(
                x.take(child_idx as int + 1),
                y.take(parent_idx as int),
            ),
        decreases parent_len - parent_idx,
    {
        proof {
            lemma_subseq_step(x, y, child_idx as int, parent_idx as int);
        }
        assert(x[child_idx as int] == child@[child_idx as int]@);
        assert(y[parent_idx as int] == parent@[parent_idx as int]@);
        if child[child_idx] == parent[parent_idx] {
            proof {
                lemma_subseq_extend(x, y, child_idx as int, parent_idx as int);
            }
            child_idx = child_idx + 1;
        } else {
            proof {
                lemma_subseq_widen(x.take(child_idx as int), y, parent_idx as int, parent_idx + 1);
            }
        }
        parent_idx = parent_idx + 1;
    }
    proof {
        assert(x.take(child_len as int) == x);
        assert(y.take(parent_len as int) == y);
        if child_idx == child_len {
            lemma_subseq_widen(x, y, parent_idx as int, parent_len as int);
        } else {
            assert(y.take(parent_idx as int) == y);
            if is_subseq(x, y) {
                lemma_subseq_prefix(x, y, child_idx as int + 1);
            }
        }
    }
    child_idx == child_len
}

} // verus!

verus! {

/// Two sorted name lists match when the shorter is an ordered subsequence of
/// the longer (the first when they are equally long).
pub open spec fn names_match(p: Seq<Seq<char>>, c: Seq<Seq<char>>) -> bool {
    if p.len() <= c.len() {
        is_subseq(p, c)
    } else {
        is_subseq(c, p)
    }
}

/// The first slot at or after `k` that is not yet taken and whose names match `p`.
pub open spec fn first_free_match(
    p: Seq<Seq<char>>,
    curr: Seq<(u32, Seq<Seq<char>>)>,
    taken: Seq<bool>,
    k: int,
) -> Option<int>
    decreases curr.len() - k,
{
    if k < 0 || k >= curr.len() {
        None
    } else if !taken[k] && names_match(p, curr[k].1) {
        Some(k)
    } else {
        first_free_match(p, curr, taken, k + 1)
    }
}

/// The pairs `(group_id, alias)` that remapping `prev` onto `curr` records, and
/// which slots of `curr` it has taken: each old group in order binds its alias
/// to the first free matching slot, which is then taken.
pub open spec fn remap(
    prev: Seq<(Seq<char>, Seq<Seq<char>>)>,
    curr: Seq<(u32, Seq<Seq<char>>)>,
) -> (Seq<(u32, Seq<char>)>, Seq<bool>)
    decreases prev.len(),
{
    if prev.len() == 0 {
        (Seq::empty(), Seq::new(curr.len(), |i: int| false))
    } else {
        let (r, taken) = remap(prev.drop_last(), curr);
        let p = prev.last();
        match first_free_match(p.1, curr, taken, 0) {
            Some(i) => (r.push((curr[i].0, p.0)), taken.update(i, true)),
            None => (r, taken),
        }
    }
}

pub open spec fn prev_view<'a>(prev: Seq<(&'a str, Vec<String>)>) -> Seq<(Seq<char>, Seq<Seq<char>>)> {
    prev.map_values(|e: (&'a str, Vec<String>)| (e.0@, strs_view(e.1@)))
}

pub open spec fn curr_view(curr: Seq<(u32, Vec<String>)>) -> Seq<(u32, Seq<Seq<char>>)> {
    curr.map_values(|e: (u32, Vec<String>)| (e.0, strs_view(e.1@)))
}

pub open spec fn bindings_view<'a>(r: Seq<(u32, &'a str)>) -> Seq<(u32, Seq<char>)> {
    r.map_values(|e: (u32, &'a str)| (e.0, e.1@))
}

proof fn lemma_first_free_match_skip(
    p: Seq<Seq<char>>,
    curr: Seq<(u32, Seq<Seq<char>>)>,
    taken: Seq<bool>,
    k: int,
)
    requires
        0 <= k <= curr.len(),
        taken.len() == curr.len(),
        forall|j: int| 0 <= j < k ==> !(!taken[j] && #[trigger] names_match(p, curr[j].1)),
    ensures
        first_free_match(p, curr, taken, 0) == first_free_match(p, curr, taken, k),
    decreases k,
{
    if k > 0 {
        lemma_first_free_match_skip(p, curr, taken, k - 1);
    }
}

proof fn lemma_first_free_match_range(
    p: Seq<Seq<char>>,
    curr: Seq<(u32, Seq<Seq<char>>)>,
    taken: Seq<bool>,
    k: int,
)
    ensures
        first_free_match(p, curr, taken, k) matches Some(i) ==> k <= i < curr.len(),
    decreases curr.len() - k,
{
    if 0 <= k < curr.len() {
        lemma_first_free_match_range(p, curr, taken, k + 1);
    }
}

proof fn lemma_remap_taken_len(
    prev: Seq<(Seq<char>, Seq<Seq<char>>)>,
    curr: Seq<(u32, Seq<Seq<char>>)>,
)
    ensures
        remap(prev, curr).1.len() == curr.len(),
        remap(prev, curr).0.len() <= prev.len(),
    decreases prev.len(),
{
    if prev.len() > 0 {
        lemma_remap_taken_len(prev.drop_last(), curr);
        let taken = remap(prev.drop_last(), curr).1;
        lemma_first_free_match_range(prev.last().1, curr, taken, 0);
    }
}

/// Maps the aliases of the previous groups onto the current groups by
/// matching their sorted service names. Each previous group, in order, binds
/// its alias to the first current group not yet bound whose names match;
/// a previous group that finds none loses its alias.
pub fn map_alias<'a>(prev: &[(&'a str, Vec<String>)], curr: &[(u32, Vec<String>)]) -> (r: Vec<
    (u32, &'a str),
>)
    ensures
        bindings_view(r@) == remap(prev_view(prev@), curr_view(curr@)).0,
{
    let ghost pv = prev_view(prev@);
    let ghost cv = curr_view(curr@);
    let mut match_flags: Vec<bool> = Vec::new();
    let mut c: usize = 0;
    while c < curr.len()
        invariant
            c <= curr.len(),
            match_flags@ == Seq::new(c as nat, |i: int| false),
        decreases curr.len() - c,
    {
        match_flags.push(false);
        c = c + 1;
    }
    let mut ret: Vec<(u32, &'a str)> = Vec::new();
    let mut p: usize = 0;
    while p < prev.len()
        invariant
            p <= prev.len(),
            pv == prev_view(prev@),
            cv == curr_view(curr@),
            (bindings_view(ret@), match_flags@) == remap(pv.take(p as int), cv),
        decreases prev.len() - p,
    {
        proof {
            lemma_remap_taken_len(pv.take(p as int), cv);
            assert(pv.take(p as int + 1).drop_last() == pv.take(p as int));
        }
        let alias = prev[p].0;
        let prev_names = &prev[p].1;
        let ghost pn = pv[p as int].1;
        let prev_num = prev_names.len();
        let mut idx: usize = 0;
        let mut found = false;
        while idx < curr.len() && !found
            invariant
                idx <= curr.len(),
                pv == prev_view(prev@),
                cv == curr_view(curr@),
                p < prev.len(),
                pn == strs_view(prev_names@),
                prev_names == &prev@[p as int].1,
                alias == prev@[p as int].0,
                prev_num == prev_names@.len(),
                match_flags@.len() == curr.len(),
                !found ==> (bindings_view(ret@), match_flags@) == remap(pv.take(p as int), cv),
                !found ==> forall|j: int|
                    0 <= j < idx ==> !(!match_flags@[j] && #[trigger] names_match(pn, cv[j].1)),
                found ==> (bindings_view(ret@), match_flags@) == remap(pv.take(p as int + 1), cv),
            decreases curr.len() - idx + if found { 0int } else { 1int },
        {
            if !match_flags[idx] {
                let curr_names = &curr[idx].1;
                assert(cv[idx as int].1 == strs_view(curr_names@));
                let is_match = if prev_num <= curr_names.len() {
                    is_subset(prev_names.as_slice(), curr_names.as_slice())
                } else {
                    is_subset(curr_names.as_slice(), prev_names.as_slice())
                };
                if is_match {
                    proof {
                        lemma_first_free_match_skip(pn, cv, match_flags@, idx as int);
                    }
                    let ghost old_ret = ret@;
                    let ghost old_flags = match_flags@;
                    proof {
                        assert(names_match(pn, cv[idx as int].1));
                        assert(first_free_match(pn, cv, old_flags, idx as int) == Some(idx as int));
                        let pt = pv.take(p as int + 1);
                        assert(pt.drop_last() == pv.take(p as int));
                        assert(pt.last() == pv[p as int]);
                    }
                    match_flags.set(idx, true);
                    ret.push((curr[idx].0, alias));
                    found = true;
                    proof {
                        assert(bindings_view(ret@) == bindings_view(old_ret).push(
                            (cv[idx as int].0, pv[p as int].0),
                        ));
                    }
                }
            }
            if !found {
                idx = idx + 1;
            }
        }
        proof {
            if !found {
                lemma_first_free_match_skip(pn, cv, match_flags@, curr.len() as int);
            }
        }
        p = p + 1;
    }
    proof {
        assert(pv.take(prev.len() as int) == pv);
    }
    ret
}


/// `a` sorts no later than `b`: lexicographic order of their characters.
pub open spec fn lex_le(a: Seq<char>, b: Seq<char>) -> bool
    decreases a.len(),
{
    if a.len() == 0 {
        true
    } else if b.len() == 0 {
        false
    } else if a[0] != b[0] {
        (a[0] as u32) < (b[0] as u32)
    } else {
        lex_le(a.drop_first(), b.drop_first())
    }
}

/// Relies on `slice::sort` over `String`: the same strings, ascending in
/// `String`'s order, which compares the UTF-8 bytes lexicographically and so
/// orders strings by their characters.
#[verifier::external_body]
fn sort_strings(v: &mut Vec<String>)
    ensures
        final(v)@.to_multiset() == old(v)@.to_multiset(),
        forall|i: int, j: int| 0 <= i < j < final(v)@.len() ==> lex_le(final(v)@[i]@, final(v)@[j]@),
{
    v.sort();
}

/// The names of the services `keys`, ascending: the form in which alias
/// remapping compares the members of two groups.
pub fn sorted_names(keys: &Vec<(String, String)>) -> (r: Vec<String>)
    ensures
        r@.to_multiset() == keys@.map_values(|k: (String, String)| k.0).to_multiset(),
        forall|i: int, j: int| 0 <= i < j < r@.len() ==> lex_le(r@[i]@, r@[j]@),
{
    let mut names: Vec<String> = Vec::new();
    let mut i: usize = 0;
    while i < keys.len()
        invariant
            i <= keys@.len(),
            names@ == keys@.take(i as int).map_values(|k: (String, String)| k.0),
        decreases keys.len() - i,
    {
        names.push(keys[i].0.clone());
        proof {
            assert(keys@.take(i as int + 1) == keys@.take(i as int).push(keys@[i as int]));
        }
        i = i + 1;
    }
    proof {
        assert(keys@.take(keys@.len() as int) == keys@);
    }
    sort_strings(&mut names);
    names
}

} // verus!

//! Locators: the parts of an interface that a consumer uses.
use crate::inter::{
    fields_size, fields_view, find_member, lemma_fields_view, lemma_lookup_size,
    lemma_variants_size_last, lemma_variants_size_member, lemma_variants_view, lookup, opt_view,
    size, variants_size, variants_view, width, Inter, InterV,
};
use vstd::prelude::*;

verus! {

broadcast use vstd::std_specs::vec::group_vec_axioms, vstd::seq::group_seq_axioms;

/// A tree of names that picks out a part of an interface.
#[derive(Debug, PartialEq)]
pub enum Loc {
    /// The whole of the interface below this point.
    Tip,
    /// The named members of a product, each with the part of it that is used.
    Branch(Vec<(String, Loc)>),
    /// Nothing of the interface below this point.
    Empty,
}

/// The place of a node kind in the order `Empty < Branch < Tip`.
pub open spec fn rank(l: Loc) -> nat {
    match l {
        Loc::Tip => 3,
        Loc::Branch(_) => 2,
        Loc::Empty => 1,
    }
}

/// The child named `k` of a branch.
pub open spec fn child(fs: Seq<(String, Loc)>, k: Seq<char>) -> Option<Loc>
    decreases fs.len(),
{
    if fs.len() == 0 {
        None
    } else if fs[0].0@ == k {
        Some(fs[0].1)
    } else {
        child(fs.drop_first(), k)
    }
}

/// What a locator selects at the path `p`: 0 where it has no node, else the rank of the node
/// there; below a `Tip` everything counts as `Tip`.
pub open spec fn selects(l: Loc, p: Seq<Seq<char>>) -> nat
    decreases p.len(),
{
    if p.len() == 0 {
        rank(l)
    } else {
        match l {
            Loc::Tip => 3,
            Loc::Empty => 0,
            Loc::Branch(fs) => match child(fs@, p[0]) {
                Some(c) => selects(c, p.drop_first()),
                None => 0,
            },
        }
    }
}

/// Two locators that select the same at every path: equal up to the order of names.
pub open spec fn same_selection(a: Loc, b: Loc) -> bool {
    forall|p: Seq<Seq<char>>| #[trigger] selects(a, p) == selects(b, p)
}

pub open spec fn max(a: nat, b: nat) -> nat {
    if a >= b {
        a
    } else {
        b
    }
}

/// `r` is the least upper bound of `a` and `b`: at every path it selects the larger of what
/// they select.
pub open spec fn is_merge(r: Loc, a: Loc, b: Loc) -> bool {
    forall|p: Seq<Seq<char>>| #[trigger] selects(r, p) == max(selects(a, p), selects(b, p))
}

pub open spec fn keys_unique(fs: Seq<(String, Loc)>) -> bool {
    forall|i: int, j: int| 0 <= i < j < fs.len() ==> fs[i].0@ != fs[j].0@
}

/// The node that a locator has at the path `p`, if any.
pub open spec fn node_at(l: Loc, p: Seq<Seq<char>>) -> Option<Loc>
    decreases p.len(),
{
    if p.len() == 0 {
        Some(l)
    } else {
        match l {
            Loc::Branch(fs) => match child(fs@, p[0]) {
                Some(c) => node_at(c, p.drop_first()),
                None => None,
            },
            _ => None,
        }
    }
}

/// Each branch names each child once.
pub open spec fn wf(l: Loc) -> bool {
    forall|p: Seq<Seq<char>>|
        match #[trigger] node_at(l, p) {
            Some(Loc::Branch(fs)) => keys_unique(fs@),
            _ => true,
        }
}

/// The children of a well-formed branch are well formed.
pub proof fn lemma_wf_children(fs: Vec<(String, Loc)>)
    requires
        wf(Loc::Branch(fs)),
    ensures
        keys_unique(fs@),
        forall|i: int| 0 <= i < fs.len() ==> #[trigger] wf(fs@[i].1),
{
    assert(node_at(Loc::Branch(fs), Seq::empty()) == Some(Loc::Branch(fs)));
    assert forall|i: int| 0 <= i < fs.len() implies #[trigger] wf(fs@[i].1) by {
        lemma_child_at(fs@, i);
        assert forall|p: Seq<Seq<char>>| #[trigger] node_at(fs@[i].1, p) == node_at(
            Loc::Branch(fs),
            seq![fs@[i].0@] + p,
        ) by {
            assert((seq![fs@[i].0@] + p).drop_first() =~= p);
        }
        assert forall|p: Seq<Seq<char>>|
            match #[trigger] node_at(fs@[i].1, p) {
                Some(Loc::Branch(gs)) => keys_unique(gs@),
                _ => true,
            } by {
            assert(node_at(fs@[i].1, p) == node_at(Loc::Branch(fs), seq![fs@[i].0@] + p));
        }
    }
}

/// A branch with unique names and well-formed children is well formed.
pub proof fn lemma_wf_branch(fs: Vec<(String, Loc)>)
    requires
        keys_unique(fs@),
        forall|i: int| 0 <= i < fs.len() ==> #[trigger] wf(fs@[i].1),
    ensures
        wf(Loc::Branch(fs)),
{
    assert forall|p: Seq<Seq<char>>|
        match #[trigger] node_at(Loc::Branch(fs), p) {
            Some(Loc::Branch(gs)) => keys_unique(gs@),
            _ => true,
        } by {
        if p.len() > 0 {
            lemma_child(fs@, p[0]);
            if exists|j: int| 0 <= j < fs.len() && #[trigger] fs@[j].0@ == p[0] {
                let j = choose|j: int| 0 <= j < fs.len() && #[trigger] fs@[j].0@ == p[0];
                assert(wf(fs@[j].1));
                assert(node_at(fs@[j].1, p.drop_first()) == node_at(Loc::Branch(fs), p));
            }
        }
    }
}

pub proof fn lemma_selects_bound(l: Loc, p: Seq<Seq<char>>)
    ensures
        selects(l, p) <= 3,
    decreases p.len(),
{
    if p.len() > 0 {
        match l {
            Loc::Branch(fs) => match child(fs@, p[0]) {
                Some(c) => lemma_selects_bound(c, p.drop_first()),
                None => {},
            },
            _ => {},
        }
    }
}

pub proof fn lemma_child_at(fs: Seq<(String, Loc)>, j: int)
    requires
        keys_unique(fs),
        0 <= j < fs.len(),
    ensures
        child(fs, fs[j].0@) == Some(fs[j].1),
    decreases j,
{
    if j > 0 {
        assert(fs[0].0@ != fs[j].0@);
        assert(fs.drop_first()[j - 1] == fs[j]);
        lemma_child_at(fs.drop_first(), j - 1);
    }
}

pub proof fn lemma_child_none(fs: Seq<(String, Loc)>, k: Seq<char>)
    requires
        forall|m: int| 0 <= m < fs.len() ==> #[trigger] fs[m].0@ != k,
    ensures
        child(fs, k) is None,
    decreases fs.len(),
{
    if fs.len() > 0 {
        assert forall|m: int| 0 <= m < fs.len() - 1 implies #[trigger] fs.drop_first()[m].0@ != k by {
            assert(fs.drop_first()[m] == fs[m + 1]);
        }
        lemma_child_none(fs.drop_first(), k);
    }
}

/// Under unique names, the child named `k` is the entry with that name, if there is one.
pub proof fn lemma_child(fs: Seq<(String, Loc)>, k: Seq<char>)
    requires
        keys_unique(fs),
    ensures
        (exists|j: int| 0 <= j < fs.len() && #[trigger] fs[j].0@ == k) || child(fs, k) is None,
        forall|j: int| 0 <= j < fs.len() && #[trigger] fs[j].0@ == k ==> child(fs, k) == Some(fs[j].1),
{
    assert forall|j: int| 0 <= j < fs.len() && #[trigger] fs[j].0@ == k implies child(fs, k) == Some(fs[j].1) by {
        lemma_child_at(fs, j);
    }
    if !exists|j: int| 0 <= j < fs.len() && #[trigger] fs[j].0@ == k {
        lemma_child_none(fs, k);
    }
}

impl Loc {
    /// A locator that selects nothing.
    pub fn new() -> (r: Self)
        ensures
            r == Loc::Empty,
            wf(r),
    {
        Loc::Empty
    }

    /// Merges `with` into `self`: the result selects what either of them selects.
    pub fn consume(&mut self, with: Self)
        requires
            wf(*old(self)),
            wf(with),
        ensures
            wf(*final(self)),
            is_merge(*final(self), *old(self), with),
            *old(self) is Tip ==> *final(self) is Tip,
            *old(self) is Empty ==> *final(self) == with,
            with is Empty ==> *final(self) == *old(self),
            with is Tip ==> *final(self) is Tip,
    {
        let mut cur = Loc::Empty;
        std::mem::swap(self, &mut cur);
        *self = merge(cur, with);
    }
}

/// The least upper bound of two locators.
#[verifier::loop_isolation(false)]
pub fn merge(a: Loc, b: Loc) -> (r: Loc)
    requires
        wf(a),
        wf(b),
    ensures
        wf(r),
        is_merge(r, a, b),
        a is Tip ==> r is Tip,
        a is Empty ==> r == b,
        b is Empty ==> r == a,
        b is Tip ==> r is Tip,
    decreases b,
{
    proof {
        assert forall|p: Seq<Seq<char>>| selects(a, p) <= 3 && selects(b, p) <= 3 by {
            lemma_selects_bound(a, p);
            lemma_selects_bound(b, p);
        }
    }
    match a {
        Loc::Tip => Loc::Tip,
        Loc::Empty => b,
        Loc::Branch(fs1) => match b {
            Loc::Tip => Loc::Tip,
            Loc::Empty => Loc::Branch(fs1),
            Loc::Branch(fs2) => {
                let ghost b0 = Loc::Branch(fs2);
                let m = merge_branches(fs1, fs2);
                let r = Loc::Branch(m);
                proof {
                    assert forall|p: Seq<Seq<char>>| #[trigger] selects(r, p) == max(selects(a, p), selects(b, p)) by {
                        if p.len() > 0 {
                            assert(selects(r, p) == max(selects(a, p), selects(b0, p)));
                        }
                    }
                }
                r
            },
        },
    }
}

/// The least upper bound of two branches, as the children of a branch.
#[verifier::loop_isolation(false)]
fn merge_branches(fs1: Vec<(String, Loc)>, fs2: Vec<(String, Loc)>) -> (r: Vec<(String, Loc)>)
    requires
        wf(Loc::Branch(fs1)),
        wf(Loc::Branch(fs2)),
    ensures
        wf(Loc::Branch(r)),
        forall|p: Seq<Seq<char>>|
            p.len() > 0 ==> #[trigger] selects(Loc::Branch(r), p) == max(
                selects(Loc::Branch(fs1), p),
                selects(Loc::Branch(fs2), p),
            ),
    decreases fs2,
{
    let ghost g2 = fs2;
    proof {
        lemma_wf_children(fs1);
        lemma_wf_children(fs2);
    }
    let mut m1 = fs1;
    let mut m2 = fs2;
    while m2.len() > 0
        invariant
            keys_unique(m1@),
            forall|i: int| 0 <= i < m1.len() ==> #[trigger] wf(m1@[i].1),
            m2.len() <= g2.len(),
            forall|i: int| 0 <= i < g2.len() ==> #[trigger] wf(g2@[i].1),
            keys_unique(g2@),
            m2@ == g2@.take(m2.len() as int),
            forall|p: Seq<Seq<char>>|
                p.len() > 0 ==> #[trigger] max(
                    selects(Loc::Branch(m1), p),
                    selects(Loc::Branch(m2), p),
                ) == max(selects(Loc::Branch(fs1), p), selects(Loc::Branch(fs2), p)),
        decreases m2.len(),
    {
        let ghost s1 = m1@;
        let ghost s2 = m2@;
        let ghost w1 = m1;
        let ghost w2 = m2;
        let (k, v) = m2.pop().unwrap();
        let ghost last = (s2.len() - 1) as int;
        proof {
            assert(s2[last] == g2@[last]);
            assert(decreases_to!(g2 => g2[last]));
            lemma_child(s2, k@);
            assert(s2[last].0@ == k@);
            assert(m2@ =~= s2.drop_last());
            assert forall|m: int| 0 <= m < m2.len() implies #[trigger] m2@[m].0@ != k@ by {
                assert(s2[m] == m2@[m]);
            }
            lemma_child_none(m2@, k@);
            assert forall|q: Seq<char>| q != k@ implies child(m2@, q) == child(s2, q) by {
                lemma_child(s2, q);
                lemma_child(m2@, q);
                if exists|j: int| 0 <= j < s2.len() && #[trigger] s2[j].0@ == q {
                    let j = choose|j: int| 0 <= j < s2.len() && #[trigger] s2[j].0@ == q;
                    assert(m2@[j] == s2[j]);
                }
                if exists|j: int| 0 <= j < m2.len() && #[trigger] m2@[j].0@ == q {
                    let j = choose|j: int| 0 <= j < m2.len() && #[trigger] m2@[j].0@ == q;
                    assert(m2@[j] == s2[j]);
                }
            }
        }
        let found = find_child(&m1, &k);
        match found {
            Some(j) => {
                let (k1, v1) = m1.remove(j);
                let mv = merge(v1, v);
                m1.insert(j, (k1, mv));
                proof {
                    assert(m1@ =~= s1.update(j as int, (k1, mv)));
                    assert forall|q: Seq<char>| q != k@ implies child(m1@, q) == child(s1, q) by {
                        lemma_child(s1, q);
                        lemma_child(m1@, q);
                        if exists|i: int| 0 <= i < s1.len() && #[trigger] s1[i].0@ == q {
                            let i = choose|i: int| 0 <= i < s1.len() && #[trigger] s1[i].0@ == q;
                            assert(m1@[i] == s1[i]);
                        }
                        if exists|i: int| 0 <= i < m1.len() && #[trigger] m1@[i].0@ == q {
                            let i = choose|i: int| 0 <= i < m1.len() && #[trigger] m1@[i].0@ == q;
                            assert(m1@[i] == s1[i]);
                        }
                    }
                    lemma_child_at(m1@, j as int);
                    lemma_child_at(s1, j as int);
                    assert forall|p: Seq<Seq<char>>| p.len() > 0 implies #[trigger] max(
                        selects(Loc::Branch(m1), p),
                        selects(Loc::Branch(m2), p),
                    ) == max(selects(Loc::Branch(w1), p), selects(Loc::Branch(w2), p)) by {
                        if p[0] == k@ {
                            assert(selects(Loc::Branch(m1), p) == selects(mv, p.drop_first()));
                            assert(selects(Loc::Branch(w1), p) == selects(v1, p.drop_first()));
                            assert(selects(Loc::Branch(w2), p) == selects(v, p.drop_first()));
                        } else {
                            assert(child(m1@, p[0]) == child(s1, p[0]));
                            assert(child(m2@, p[0]) == child(s2, p[0]));
                        }
                    }
                }
            },
            None => {
                m1.push((k, v));
                proof {
                    assert(m1@ =~= s1.push((k, v)));
                    let last1 = (m1.len() - 1) as int;
                    lemma_child_at(m1@, last1);
                    assert forall|q: Seq<char>| q != k@ implies child(m1@, q) == child(s1, q) by {
                        lemma_child(s1, q);
                        lemma_child(m1@, q);
                        if exists|i: int| 0 <= i < s1.len() && #[trigger] s1[i].0@ == q {
                            let i = choose|i: int| 0 <= i < s1.len() && #[trigger] s1[i].0@ == q;
                            assert(m1@[i] == s1[i]);
                        }
                        if exists|i: int| 0 <= i < m1.len() && #[trigger] m1@[i].0@ == q {
                            let i = choose|i: int| 0 <= i < m1.len() && #[trigger] m1@[i].0@ == q;
                            if i < s1.len() {
                                assert(m1@[i] == s1[i]);
                            }
                        }
                    }
                    lemma_child_none(s1, k@);
                    assert forall|p: Seq<Seq<char>>| p.len() > 0 implies #[trigger] max(
                        selects(Loc::Branch(m1), p),
                        selects(Loc::Branch(m2), p),
                    ) == max(selects(Loc::Branch(w1), p), selects(Loc::Branch(w2), p)) by {
                        if p[0] == k@ {
                            assert(selects(Loc::Branch(m1), p) == selects(v, p.drop_first()));
                            assert(selects(Loc::Branch(w1), p) == 0);
                            assert(selects(Loc::Branch(w2), p) == selects(v, p.drop_first()));
                        } else {
                            assert(child(m1@, p[0]) == child(s1, p[0]));
                            assert(child(m2@, p[0]) == child(s2, p[0]));
                        }
                    }
                }
            },
        }
    }
    let ghost r = Loc::Branch(m1);
    proof {
        lemma_wf_branch(m1);
        assert forall|p: Seq<Seq<char>>| #[trigger] selects(r, p) == max(selects(Loc::Branch(fs1), p), selects(Loc::Branch(fs2), p)) by {
            if p.len() > 0 {
                assert(m2@.len() == 0);
                assert(child(m2@, p[0]) is None);
                assert(max(selects(Loc::Branch(m1), p), selects(Loc::Branch(m2), p)) == max(selects(Loc::Branch(fs1), p), selects(Loc::Branch(fs2), p)));
            }
        }
    }
    m1
}

/// Where the entry named `k` stands in a branch, if it has one.
#[verifier::loop_isolation(false)]
fn find_child(fs: &Vec<(String, Loc)>, k: &String) -> (r: Option<usize>)
    ensures
        match r {
            Some(j) => j < fs.len() && fs@[j as int].0@ == k@,
            None => forall|m: int| 0 <= m < fs.len() ==> #[trigger] fs@[m].0@ != k@,
        },
{
    let mut j: usize = 0;
    while j < fs.len()
        invariant
            j <= fs.len(),
            forall|m: int| 0 <= m < j ==> #[trigger] fs@[m].0@ != k@,
        decreases fs.len() - j,
    {
        if fs[j].0 == *k {
            return Some(j);
        }
        j += 1;
    }
    None
}

/// What a locator selects of an interface: `None` where it asks for a member or a depth that
/// the interface lacks.
pub open spec fn project(l: Loc, b: InterV) -> Option<InterV>
    decreases size(b), 0nat,
{
    match l {
        Loc::Tip => Some(b),
        Loc::Empty => Some(InterV::Never),
        Loc::Branch(fs) => match b {
            InterV::Product(bfs) => match project_members(fs@, bfs) {
                Some(ms) => Some(InterV::Product(ms)),
                None => None,
            },
            InterV::Sum(vs) => Some(InterV::Sum(project_variants(l, vs))),
            _ => None,
        },
    }
}

/// The members that the children `ls` of a branch select of the members `bfs` of a product,
/// in the order of `ls`.
pub open spec fn project_members(
    ls: Seq<(String, Loc)>,
    bfs: Seq<(Seq<char>, InterV)>,
) -> Option<Seq<(Seq<char>, InterV)>>
    decreases fields_size(bfs), ls.len(),
    via project_members_decreases
{
    if ls.len() == 0 {
        Some(Seq::empty())
    } else {
        let k = ls.last().0@;
        match project_members(ls.drop_last(), bfs) {
            None => None,
            Some(init) => match lookup(bfs, k) {
                None => None,
                Some(c) => match project(ls.last().1, c) {
                    None => None,
                    Some(x) => Some(init.push((k, x))),
                },
            },
        }
    }
}

#[via_fn]
proof fn project_members_decreases(ls: Seq<(String, Loc)>, bfs: Seq<(Seq<char>, InterV)>) {
    lemma_lookup_size(bfs, ls.last().0@);
}

/// What a branch selects of each variant of a sum, leaving out the variants it does not fit.
pub open spec fn project_variants(l: Loc, vs: Seq<InterV>) -> Seq<InterV>
    decreases variants_size(vs), 1nat,
    via project_variants_decreases
{
    if vs.len() == 0 {
        Seq::empty()
    } else {
        let init = project_variants(l, vs.drop_last());
        match project(l, vs.last()) {
            Some(x) => init.push(x),
            None => init,
        }
    }
}

#[via_fn]
proof fn project_variants_decreases(l: Loc, vs: Seq<InterV>) {
    if vs.len() > 0 {
        lemma_variants_size_last(vs);
        assert(size(vs.last()) >= 1);
    }
}

pub proof fn lemma_project_members_fails(
    ls: Seq<(String, Loc)>,
    bfs: Seq<(Seq<char>, InterV)>,
    i: int,
    j: int,
)
    requires
        0 <= i <= j <= ls.len(),
        project_members(ls.take(i), bfs) is None,
    ensures
        project_members(ls.take(j), bfs) is None,
    decreases j - i,
{
    if j > i {
        lemma_project_members_fails(ls, bfs, i, j - 1);
        assert(ls.take(j).drop_last() =~= ls.take(j - 1));
    }
}

pub open spec fn opt_inter_view(o: Option<Inter>) -> Option<InterV> {
    match o {
        Some(i) => Some(i@),
        None => None,
    }
}

impl Loc {
    /// The part of `base` that `self` selects, or `None` where `self` asks for a member or a
    /// depth that `base` lacks. `Empty` selects the bottom type, which stays under its name in
    /// an enclosing product; against a sum, a branch keeps what it selects of each variant and
    /// leaves out the variants it does not fit.
    #[verifier::loop_isolation(false)]
    pub fn select_subset(&self, base: &Inter) -> (r: Option<Inter>)
        ensures
            opt_inter_view(r) == project(*self, base@),
        decreases size(base@),
    {
        match self {
            Loc::Tip => Some(base.duplicate()),
            Loc::Empty => Some(Inter::Never),
            Loc::Branch(ls) => match base {
                Inter::Product(bfs) => {
                    let ghost bv = fields_view(*base, width(*base));
                    proof {
                        lemma_fields_view(*base, width(*base));
                    }
                    let mut out: Vec<(String, Inter)> = Vec::new();
                    let ghost mut acc: Seq<(Seq<char>, InterV)> = Seq::empty();
                    let mut i: usize = 0;
                    while i < ls.len()
                        invariant
                            i <= ls.len(),
                            project_members(ls@.take(i as int), bv) == Some(acc),
                            out.len() == acc.len(),
                            forall|j: int| 0 <= j < out.len() ==> #[trigger] out@[j].0@ == acc[j].0 && out@[j].1@ == acc[j].1,
                        decreases ls.len() - i,
                    {
                        proof {
                            assert(ls@.take(i + 1).drop_last() =~= ls@.take(i as int));
                            assert(ls@.take(i + 1).last() == ls@[i as int]);
                            lemma_lookup_size(bv, ls@[i as int].0@);
                        }
                        let found = find_member(bfs, &ls[i].0);
                        match found {
                            None => {
                                proof {
                                    lemma_project_members_fails(ls@, bv, i + 1, ls.len() as int);
                                    assert(ls@.take(ls.len() as int) =~= ls@);
                                }
                                return None;
                            },
                            Some(c) => {
                                match ls[i].1.select_subset(c) {
                                    None => {
                                        proof {
                                            lemma_project_members_fails(ls@, bv, i + 1, ls.len() as int);
                                            assert(ls@.take(ls.len() as int) =~= ls@);
                                        }
                                        return None;
                                    },
                                    Some(x) => {
                                        proof {
                                            acc = acc.push((ls@[i as int].0@, x@));
                                        }
                                        out.push((ls[i].0.clone(), x));
                                        assert(out@[out.len() - 1].0@ == acc[acc.len() - 1].0);
                                    },
                                }
                            },
                        }
                        i += 1;
                    }
                    let r = Inter::Product(out);
                    proof {
                        assert(ls@.take(ls.len() as int) =~= ls@);
                        lemma_fields_view(r, width(r));
                        assert(fields_view(r, width(r)) =~= acc);
                    }
                    Some(r)
                },
                Inter::Sum(vs) => {
                    let ghost vv = variants_view(*base, width(*base));
                    proof {
                        lemma_variants_view(*base, width(*base));
                    }
                    let mut out: Vec<Inter> = Vec::new();
                    let ghost mut acc: Seq<InterV> = Seq::empty();
                    let mut i: usize = 0;
                    while i < vs.len()
                        invariant
                            i <= vs.len(),
                            project_variants(*self, vv.take(i as int)) == acc,
                            out.len() == acc.len(),
                            forall|j: int| 0 <= j < out.len() ==> #[trigger] out@[j]@ == acc[j],
                        decreases vs.len() - i,
                    {
                        proof {
                            assert(vv.take(i + 1).drop_last() =~= vv.take(i as int));
                            assert(vv.take(i + 1).last() == vv[i as int]);
                            lemma_variants_size_member(vv, i as int);
                        }
                        match self.select_subset(&vs[i]) {
                            Some(x) => {
                                proof {
                                    acc = acc.push(x@);
                                }
                                out.push(x);
                            },
                            None => {},
                        }
                        i += 1;
                    }
                    let r = Inter::Sum(out);
                    proof {
                        assert(vv.take(vs.len() as int) =~= vv);
                        lemma_variants_view(r, width(r));
                        assert(variants_view(r, width(r)) =~= acc);
                    }
                    Some(r)
                },
                _ => None,
            },
        }
    }
}

/// Merging is associative: merging `a` with `b` and then with `c` selects the same, at every
/// path, as merging `a` with the merge of `b` and `c`.
pub proof fn lemma_merge_associative(a: Loc, b: Loc, c: Loc, ab: Loc, ab_c: Loc, bc: Loc, a_bc: Loc)
    requires
        is_merge(ab, a, b),
        is_merge(ab_c, ab, c),
        is_merge(bc, b, c),
        is_merge(a_bc, a, bc),
    ensures
        same_selection(ab_c, a_bc),
{
    assert forall|p: Seq<Seq<char>>| #[trigger] selects(ab_c, p) == selects(a_bc, p) by {
        assert(selects(ab, p) == max(selects(a, p), selects(b, p)));
        assert(selects(bc, p) == max(selects(b, p), selects(c, p)));
        assert(selects(ab_c, p) == max(selects(ab, p), selects(c, p)));
        assert(selects(a_bc, p) == max(selects(a, p), selects(bc, p)));
    }
}

/// Merging is commutative: the merge of `a` with `b` selects what the merge of `b` with `a`
/// selects.
pub proof fn lemma_merge_commutative(a: Loc, b: Loc, ab: Loc, ba: Loc)
    requires
        is_merge(ab, a, b),
        is_merge(ba, b, a),
    ensures
        same_selection(ab, ba),
{
    assert forall|p: Seq<Seq<char>>| #[trigger] selects(ab, p) == selects(ba, p) by {
        assert(selects(ab, p) == max(selects(a, p), selects(b, p)));
        assert(selects(ba, p) == max(selects(b, p), selects(a, p)));
    }
}

/// Merging is idempotent: the merge of `a` with itself selects what `a` selects.
pub proof fn lemma_merge_idempotent(a: Loc, aa: Loc)
    requires
        is_merge(aa, a, a),
    ensures
        same_selection(aa, a),
{
    assert forall|p: Seq<Seq<char>>| #[trigger] selects(aa, p) == selects(a, p) by {
        assert(selects(aa, p) == max(selects(a, p), selects(a, p)));
    }
}

/// `Empty` is the identity of merging: its merge with `x` selects what `x` selects.
pub proof fn lemma_merge_empty(x: Loc, r: Loc)
    requires
        is_merge(r, Loc::Empty, x),
    ensures
        same_selection(r, x),
{
    assert forall|p: Seq<Seq<char>>| #[trigger] selects(r, p) == selects(x, p) by {
        assert(selects(r, p) == max(selects(Loc::Empty, p), selects(x, p)));
        if p.len() == 0 {
            assert(selects(x, p) >= 1);
        }
    }
}

/// `Tip` absorbs everything: its merge with `x` selects what `Tip` selects.
pub proof fn lemma_merge_tip(x: Loc, r: Loc)
    requires
        is_merge(r, Loc::Tip, x),
    ensures
        same_selection(r, Loc::Tip),
{
    assert forall|p: Seq<Seq<char>>| #[trigger] selects(r, p) == selects(Loc::Tip, p) by {
        assert(selects(r, p) == max(selects(Loc::Tip, p), selects(x, p)));
        lemma_selects_bound(x, p);
    }
}

/// Projecting `Tip` gives back the whole interface.
pub proof fn lemma_project_tip(b: InterV)
    ensures
        project(Loc::Tip, b) == Some(b),
{
}

/// A branch that names a member that a product lacks selects nothing of it: the projection
/// diverges rather than give a partial result.
pub proof fn lemma_project_absent_member(fs: Vec<(String, Loc)>, bfs: Seq<(Seq<char>, InterV)>, i: int)
    requires
        0 <= i < fs.len(),
        lookup(bfs, fs@[i].0@) is None,
    ensures
        project(Loc::Branch(fs), InterV::Product(bfs)) is None,
{
    let ls = fs@;
    assert(ls.take(i + 1).drop_last() =~= ls.take(i));
    assert(ls.take(i + 1).last() == ls[i]);
    if project_members(ls.take(i), bfs) is None {
        lemma_project_members_fails(ls, bfs, i, i + 1);
    }
    lemma_project_members_fails(ls, bfs, i + 1, ls.len() as int);
    assert(ls.take(ls.len() as int) =~= ls);
}

} // verus!

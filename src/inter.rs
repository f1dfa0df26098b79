//! The interface algebra and the containment engine.
use std::collections::VecDeque;
use vstd::prelude::*;

verus! {

broadcast use vstd::std_specs::vec::group_vec_axioms, vstd::seq::group_seq_axioms;

/// The shape of an interface.
#[derive(Debug, PartialEq, Eq)]
pub enum Inter {
    /// A product type of named members; each name occurs once.
    Product(Vec<(String, Inter)>),
    /// A sum type: a list of variants, any one of which a value may match.
    Sum(Vec<Inter>),
    /// A nominal type: a named primitive.
    Nominal(String),
    /// The bottom type.
    Never,
}

/// The mathematical value of an [`Inter`].
pub enum InterV {
    Product(Seq<(Seq<char>, InterV)>),
    Sum(Seq<InterV>),
    Nominal(Seq<char>),
    Never,
}

/// The number of entries directly below a node.
pub open spec fn width(i: Inter) -> nat {
    match i {
        Inter::Product(fs) => fs.len() as nat,
        Inter::Sum(vs) => vs.len() as nat,
        _ => 0,
    }
}

/// The views of the first `n` members of a product.
pub open spec fn fields_view(i: Inter, n: nat) -> Seq<(Seq<char>, InterV)>
    decreases i, n,
{
    match i {
        Inter::Product(fs) => if n == 0 || n > fs.len() {
            Seq::empty()
        } else {
            fields_view(i, (n - 1) as nat).push((fs[n - 1].0@, fs[n - 1].1.view()))
        },
        _ => Seq::empty(),
    }
}

/// The views of the first `n` variants of a sum.
pub open spec fn variants_view(i: Inter, n: nat) -> Seq<InterV>
    decreases i, n,
{
    match i {
        Inter::Sum(vs) => if n == 0 || n > vs.len() {
            Seq::empty()
        } else {
            variants_view(i, (n - 1) as nat).push(vs[n - 1].view())
        },
        _ => Seq::empty(),
    }
}

impl View for Inter {
    type V = InterV;

    open spec fn view(&self) -> InterV
        decreases *self, width(*self) + 1,
    {
        match *self {
            Inter::Product(_) => InterV::Product(fields_view(*self, width(*self))),
            Inter::Sum(_) => InterV::Sum(variants_view(*self, width(*self))),
            Inter::Nominal(n) => InterV::Nominal(n@),
            Inter::Never => InterV::Never,
        }
    }
}

pub proof fn lemma_fields_view(i: Inter, n: nat)
    requires
        n <= width(i),
        i is Product,
    ensures
        fields_view(i, n).len() == n,
        forall|j: int|
            0 <= j < n ==> #[trigger] fields_view(i, n)[j] == (i->Product_0[j].0@,
                i->Product_0[j].1@),
    decreases n,
{
    if n > 0 {
        lemma_fields_view(i, (n - 1) as nat);
        let fs = i->Product_0;
        assert(fields_view(i, n) == fields_view(i, (n - 1) as nat).push(
            (fs[n - 1].0@, fs[n - 1].1@),
        ));
    }
}

pub proof fn lemma_variants_view(i: Inter, n: nat)
    requires
        n <= width(i),
        i is Sum,
    ensures
        variants_view(i, n).len() == n,
        forall|j: int| 0 <= j < n ==> #[trigger] variants_view(i, n)[j] == i->Sum_0[j]@,
    decreases n,
{
    if n > 0 {
        lemma_variants_view(i, (n - 1) as nat);
        let vs = i->Sum_0;
        assert(variants_view(i, n) == variants_view(i, (n - 1) as nat).push(vs[n - 1]@));
    }
}

impl Inter {
    /// A deep copy.
    #[verifier::loop_isolation(false)]
    pub fn duplicate(&self) -> (r: Inter)
        ensures
            r@ == self@,
        decreases self,
    {
        match self {
            Inter::Product(fs) => {
                let mut out: Vec<(String, Inter)> = Vec::new();
                let mut i: usize = 0;
                while i < fs.len()
                    invariant
                        i <= fs.len(),
                        out@.len() == i,
                        forall|j: int| 0 <= j < i ==> #[trigger] out@[j].0@ == fs@[j].0@,
                        forall|j: int| 0 <= j < i ==> #[trigger] out@[j].1@ == fs@[j].1@,
                    decreases fs.len() - i,
                {
                    proof {
                        assert(decreases_to!(*fs => fs[i as int]));
                        assert(decreases_to!(*self => fs[i as int].1));
                    }
                    let c = fs[i].1.duplicate();
                    let ghost prev = out@;
                    out.push((fs[i].0.clone(), c));
                    assert(out@ == prev.push(out@[i as int]));
                    assert(out@[i as int].0@ == fs@[i as int].0@);
                    assert(out@[i as int].1@ == fs@[i as int].1@);
                    i += 1;
                }
                let r = Inter::Product(out);
                proof {
                    lemma_fields_view(r, width(r));
                    lemma_fields_view(*self, width(*self));
                    assert(r@ == self@) by {
                        assert(fields_view(r, width(r)) =~= fields_view(*self, width(*self)));
                    }
                }
                r
            },
            Inter::Sum(vs) => {
                let mut out: Vec<Inter> = Vec::new();
                let mut i: usize = 0;
                while i < vs.len()
                    invariant
                        i <= vs.len(),
                        out@.len() == i,
                        forall|j: int| 0 <= j < i ==> #[trigger] out@[j]@ == vs@[j]@,
                    decreases vs.len() - i,
                {
                    proof {
                        assert(decreases_to!(*vs => vs[i as int]));
                        assert(decreases_to!(*self => vs[i as int]));
                    }
                    let c = vs[i].duplicate();
                    out.push(c);
                    i += 1;
                }
                let r = Inter::Sum(out);
                proof {
                    lemma_variants_view(r, width(r));
                    lemma_variants_view(*self, width(*self));
                    assert(r@ == self@) by {
                        assert(variants_view(r, width(r)) =~= variants_view(*self, width(*self)));
                    }
                }
                r
            },
            Inter::Nominal(n) => Inter::Nominal(n.clone()),
            Inter::Never => Inter::Never,
        }
    }
}

/// The mathematical value of an [`Incompatibility`].
pub enum IncompatView {
    MismatchedName(Seq<char>),
    ContainerDiverges(Seq<char>),
    ContainedDiverges(Seq<char>),
}

/// A pending comparison: a path, the old node there, and the new node there if it has one.
pub type TaskV = (Seq<char>, InterV, Option<InterV>);

/// The number of nodes in a tree.
pub open spec fn size(i: InterV) -> nat
    decreases i,
{
    match i {
        InterV::Product(fs) => 1 + fields_size(fs),
        InterV::Sum(vs) => 1 + variants_size(vs),
        _ => 1,
    }
}

pub open spec fn fields_size(fs: Seq<(Seq<char>, InterV)>) -> nat
    decreases fs,
{
    if fs.len() == 0 {
        0
    } else {
        size(fs[0].1) + fields_size(fs.drop_first())
    }
}

pub open spec fn variants_size(vs: Seq<InterV>) -> nat
    decreases vs,
{
    if vs.len() == 0 {
        0
    } else {
        size(vs[0]) + variants_size(vs.drop_first())
    }
}

/// The total size of the old nodes of a queue.
pub open spec fn old_size(q: Seq<TaskV>) -> nat
    decreases q.len(),
{
    if q.len() == 0 {
        0
    } else {
        size(q[0].1) + old_size(q.drop_first())
    }
}

pub open spec fn opt_size(o: Option<InterV>) -> nat {
    match o {
        Some(i) => size(i),
        None => 0,
    }
}

/// The total size of the new nodes of a queue.
pub open spec fn new_size(q: Seq<TaskV>) -> nat
    decreases q.len(),
{
    if q.len() == 0 {
        0
    } else {
        opt_size(q[0].2) + new_size(q.drop_first())
    }
}

/// The member named `k` of a product: the first one, where names repeat.
pub open spec fn lookup(fs: Seq<(Seq<char>, InterV)>, k: Seq<char>) -> Option<InterV>
    decreases fs.len(),
{
    if fs.len() == 0 {
        None
    } else if fs[0].0 == k {
        Some(fs[0].1)
    } else {
        lookup(fs.drop_first(), k)
    }
}

/// The path of a member named `k` below `path`.
pub open spec fn member_path(path: Seq<char>, k: Seq<char>) -> Seq<char> {
    path + seq!['.'] + k
}

/// What a product `fs` puts in the queue when compared with a product `peer`.
pub open spec fn field_tasks(
    path: Seq<char>,
    fs: Seq<(Seq<char>, InterV)>,
    peer: Seq<(Seq<char>, InterV)>,
) -> Seq<TaskV> {
    Seq::new(fs.len(), |j: int| (member_path(path, fs[j].0), fs[j].1, lookup(peer, fs[j].0)))
}

/// What a sum `vs` puts in the queue when compared with a sum `peer`.
pub open spec fn variant_tasks(path: Seq<char>, vs: Seq<InterV>, peer: InterV) -> Seq<TaskV> {
    Seq::new(vs.len(), |j: int| (path, vs[j], Some(peer)))
}

pub proof fn lemma_old_size_concat(a: Seq<TaskV>, b: Seq<TaskV>)
    ensures
        old_size(a + b) == old_size(a) + old_size(b),
        new_size(a + b) == new_size(a) + new_size(b),
    decreases a.len(),
{
    if a.len() > 0 {
        lemma_old_size_concat(a.drop_first(), b);
        assert((a + b).drop_first() =~= a.drop_first() + b);
    } else {
        assert(a + b =~= b);
    }
}

pub proof fn lemma_field_tasks_size(
    path: Seq<char>,
    fs: Seq<(Seq<char>, InterV)>,
    peer: Seq<(Seq<char>, InterV)>,
)
    ensures
        old_size(field_tasks(path, fs, peer)) == fields_size(fs),
    decreases fs.len(),
{
    if fs.len() > 0 {
        lemma_field_tasks_size(path, fs.drop_first(), peer);
        assert(field_tasks(path, fs.drop_first(), peer) =~= field_tasks(
            path,
            fs,
            peer,
        ).drop_first());
    }
}

pub proof fn lemma_variant_tasks_size(path: Seq<char>, vs: Seq<InterV>, peer: InterV)
    ensures
        old_size(variant_tasks(path, vs, peer)) == variants_size(vs),
    decreases vs.len(),
{
    if vs.len() > 0 {
        lemma_variant_tasks_size(path, vs.drop_first(), peer);
        assert(variant_tasks(path, vs.drop_first(), peer) =~= variant_tasks(
            path,
            vs,
            peer,
        ).drop_first());
    }
}

/// The findings that the queue `q` yields, in order: the queue is worked off front first, and
/// each entry yields at most one finding or else puts the entries below it at the back. The new
/// node decides: a nominal asks for the same name; a product asks each member of the old product
/// to fit the member of the same name, and accepts members it lacks on the old side only; a sum
/// asks each variant of an old sum to fit the whole sum, and any other old node to fit one of
/// its variants; `Never` on the new side accepts anything.
pub open spec fn run(q: Seq<TaskV>) -> Seq<IncompatView>
    decreases old_size(q), new_size(q), 1nat,
    via run_decreases
{
    if q.len() == 0 {
        Seq::empty()
    } else {
        let path = q[0].0;
        let node = q[0].1;
        let rest = q.drop_first();
        match q[0].2 {
            None => seq![IncompatView::ContainedDiverges(path)] + run(rest),
            Some(peer) => match peer {
                InterV::Nominal(pn) => match node {
                    InterV::Nominal(n) => if n == pn {
                        run(rest)
                    } else {
                        seq![IncompatView::MismatchedName(path)] + run(rest)
                    },
                    _ => seq![IncompatView::ContainerDiverges(path)] + run(rest),
                },
                InterV::Product(pfs) => match node {
                    InterV::Product(fs) => run(rest + field_tasks(path, fs, pfs)),
                    _ => seq![IncompatView::ContainerDiverges(path)] + run(rest),
                },
                InterV::Sum(pvs) => match node {
                    InterV::Sum(vs) => run(rest + variant_tasks(path, vs, peer)),
                    _ => if fits_any(node, pvs) {
                        run(rest)
                    } else {
                        seq![IncompatView::ContainerDiverges(path)] + run(rest)
                    },
                },
                InterV::Never => run(rest),
            },
        }
    }
}

#[via_fn]
proof fn run_decreases(q: Seq<TaskV>) {
    if q.len() > 0 {
        let rest = q.drop_first();
        assert(old_size(q) == size(q[0].1) + old_size(rest));
        assert(new_size(q) == opt_size(q[0].2) + new_size(rest));
        match q[0].2 {
            Some(peer) => match peer {
                InterV::Product(pfs) => match q[0].1 {
                    InterV::Product(fs) => {
                        lemma_old_size_concat(rest, field_tasks(q[0].0, fs, pfs));
                        lemma_field_tasks_size(q[0].0, fs, pfs);
                    },
                    _ => {},
                },
                InterV::Sum(pvs) => match q[0].1 {
                    InterV::Sum(vs) => {
                        lemma_old_size_concat(rest, variant_tasks(q[0].0, vs, peer));
                        lemma_variant_tasks_size(q[0].0, vs, peer);
                    },
                    _ => {},
                },
                _ => {},
            },
            None => {},
        }
    }
}

/// Whether `a` fits within some member of `vs`.
pub open spec fn fits_any(a: InterV, vs: Seq<InterV>) -> bool
    decreases size(a), variants_size(vs), 3nat,
    via fits_any_decreases
{
    if vs.len() == 0 {
        false
    } else {
        fits(a, vs[0]) || fits_any(a, vs.drop_first())
    }
}

#[via_fn]
proof fn fits_any_decreases(a: InterV, vs: Seq<InterV>) {
    if vs.len() > 0 {
        assert(size(vs[0]) >= 1);
        assert(variants_size(vs) == size(vs[0]) + variants_size(vs.drop_first()));
    }
}

/// Containment: every value that `a` describes is also described by `b`.
pub open spec fn fits(a: InterV, b: InterV) -> bool
    decreases size(a), size(b), 2nat,
    via fits_decreases
{
    run(seq![(Seq::empty(), a, Some(b))]).len() == 0
}

#[via_fn]
proof fn fits_decreases(a: InterV, b: InterV) {
    let q: Seq<TaskV> = seq![(Seq::empty(), a, Some(b))];
    assert(q.drop_first() =~= Seq::<TaskV>::empty());
    assert(old_size(q) == size(a) + old_size(q.drop_first()));
    assert(new_size(q) == size(b) + new_size(q.drop_first()));
}

pub proof fn lemma_fits_any(a: InterV, vs: Seq<InterV>)
    ensures
        fits_any(a, vs) <==> exists|j: int| 0 <= j < vs.len() && #[trigger] fits(a, vs[j]),
    decreases vs.len(),
{
    if vs.len() > 0 {
        let rest = vs.drop_first();
        lemma_fits_any(a, rest);
        assert(fits_any(a, vs) == (fits(a, vs[0]) || fits_any(a, rest)));
        if fits_any(a, rest) {
            let j = choose|j: int| 0 <= j < rest.len() && #[trigger] fits(a, rest[j]);
            assert(rest[j] == vs[j + 1]);
            assert(fits(a, vs[j + 1]));
        }
        if exists|j: int| 0 <= j < vs.len() && #[trigger] fits(a, vs[j]) {
            let j = choose|j: int| 0 <= j < vs.len() && #[trigger] fits(a, vs[j]);
            if j > 0 {
                assert(rest[j - 1] == vs[j]);
                assert(fits(a, rest[j - 1]));
            }
        }
    }
}

pub proof fn lemma_variants_size_member(vs: Seq<InterV>, j: int)
    requires
        0 <= j < vs.len(),
    ensures
        size(vs[j]) <= variants_size(vs),
    decreases vs.len(),
{
    if j > 0 {
        lemma_variants_size_member(vs.drop_first(), j - 1);
    }
}

pub proof fn lemma_lookup_size(fs: Seq<(Seq<char>, InterV)>, k: Seq<char>)
    ensures
        lookup(fs, k) matches Some(c) ==> size(c) <= fields_size(fs),
    decreases fs.len(),
{
    if fs.len() > 0 {
        lemma_lookup_size(fs.drop_first(), k);
    }
}

pub proof fn lemma_variants_size_last(vs: Seq<InterV>)
    requires
        vs.len() > 0,
    ensures
        variants_size(vs) == variants_size(vs.drop_last()) + size(vs.last()),
    decreases vs.len(),
{
    if vs.len() > 1 {
        lemma_variants_size_last(vs.drop_first());
        assert(vs.drop_first().drop_last() =~= vs.drop_last().drop_first());
        assert(vs.drop_last()[0] == vs[0]);
        assert(vs.drop_first().last() == vs.last());
        assert(variants_size(vs.drop_last()) == size(vs[0]) + variants_size(
            vs.drop_last().drop_first(),
        ));
    } else {
        assert(vs.drop_first().len() == 0);
        assert(vs.drop_last().len() == 0);
        assert(variants_size(vs.drop_first()) == 0);
        assert(variants_size(vs.drop_last()) == 0);
        assert(vs.last() == vs[0]);
    }
}

pub proof fn lemma_lookup(fs: Seq<(Seq<char>, InterV)>, k: Seq<char>, j: int)
    requires
        0 <= j <= fs.len(),
        forall|m: int| 0 <= m < j ==> #[trigger] fs[m].0 != k,
    ensures
        j < fs.len() && fs[j].0 == k ==> lookup(fs, k) == Some(fs[j].1),
        j == fs.len() ==> lookup(fs, k) is None,
    decreases j,
{
    if j > 0 {
        assert forall|m: int| 0 <= m < j - 1 implies #[trigger] fs.drop_first()[m].0 != k by {
            assert(fs[m + 1].0 != k);
        }
        lemma_lookup(fs.drop_first(), k, j - 1);
    }
}

/// One way in which containment fails, with the path at which it fails.
#[derive(Debug, Clone)]
pub enum Incompatibility {
    /// Two nominal types have different names.
    MismatchedName(String),
    /// The old side is not a node of the kind that the new side is, or fits no variant of a
    /// sum on the new side.
    ContainerDiverges(String),
    /// The old side has a path that the new side lacks.
    ContainedDiverges(String),
}

impl View for Incompatibility {
    type V = IncompatView;

    open spec fn view(&self) -> IncompatView {
        match *self {
            Incompatibility::MismatchedName(p) => IncompatView::MismatchedName(p@),
            Incompatibility::ContainerDiverges(p) => IncompatView::ContainerDiverges(p@),
            Incompatibility::ContainedDiverges(p) => IncompatView::ContainedDiverges(p@),
        }
    }
}

impl Incompatibility {
    /// A sentence that describes the incompatibility.
    pub fn message(&self) -> (r: String)
        ensures
            r@ == match self@ {
                IncompatView::MismatchedName(p) => "Type mismatch at path "@ + p,
                IncompatView::ContainerDiverges(p) => "The interfaces have different structures at path "@ + p,
                IncompatView::ContainedDiverges(p) => "The new interface diverges from the old one at "@ + p,
            },
    {
        match self {
            Incompatibility::MismatchedName(p) => {
                let mut r = "Type mismatch at path ".to_owned();
                r.append(p.as_str());
                r
            },
            Incompatibility::ContainerDiverges(p) => {
                let mut r = "The interfaces have different structures at path ".to_owned();
                r.append(p.as_str());
                r
            },
            Incompatibility::ContainedDiverges(p) => {
                let mut r = "The new interface diverges from the old one at ".to_owned();
                r.append(p.as_str());
                r
            },
        }
    }
}

impl PartialEq for Incompatibility {
    fn eq(&self, o: &Incompatibility) -> (r: bool) {
        match (self, o) {
            (Incompatibility::MismatchedName(a), Incompatibility::MismatchedName(b)) => *a == *b,
            (Incompatibility::ContainerDiverges(a), Incompatibility::ContainerDiverges(b)) => *a == *b,
            (Incompatibility::ContainedDiverges(a), Incompatibility::ContainedDiverges(b)) => *a == *b,
            _ => false,
        }
    }
}

impl vstd::std_specs::cmp::PartialEqSpecImpl for Incompatibility {
    open spec fn obeys_eq_spec() -> bool {
        true
    }

    open spec fn eq_spec(&self, o: &Incompatibility) -> bool {
        self@ == o@
    }
}

/// The views of a sequence of incompatibilities.
pub open spec fn views(s: Seq<Incompatibility>) -> Seq<IncompatView> {
    s.map_values(|e: Incompatibility| e@)
}

pub open spec fn opt_view(o: Option<&Inter>) -> Option<InterV> {
    match o {
        Some(i) => Some(i@),
        None => None,
    }
}

/// The member named `k` of a product, if it has one.
#[verifier::loop_isolation(false)]
pub(crate) fn find_member<'a>(fs: &'a Vec<(String, Inter)>, k: &String) -> (r: Option<&'a Inter>)
    ensures
        opt_view(r) == lookup(fields_view(Inter::Product(*fs), fs.len() as nat), k@),
{
    let ghost i = Inter::Product(*fs);
    proof {
        lemma_fields_view(i, width(i));
    }
    let ghost fv = fields_view(i, width(i));
    let mut j: usize = 0;
    while j < fs.len()
        invariant
            j <= fs.len(),
            fv.len() == fs.len(),
            forall|m: int| 0 <= m < fs.len() ==> #[trigger] fv[m] == (fs@[m].0@, fs@[m].1@),
            forall|m: int| 0 <= m < j ==> #[trigger] fv[m].0 != k@,
        decreases fs.len() - j,
    {
        if fs[j].0 == *k {
            proof {
                assert(fv[j as int].0 == k@);
                lemma_lookup(fv, k@, j as int);
            }
            return Some(&fs[j].1);
        }
        j += 1;
    }
    proof {
        lemma_lookup(fv, k@, j as int);
    }
    None
}

/// A lazy sequence of the incompatibilities between two interfaces.
pub struct IncompatibilityStream<'a> {
    to_check: VecDeque<(String, &'a Inter, Option<&'a Inter>)>,
}

impl<'a> IncompatibilityStream<'a> {
    /// The comparisons that are still to be made.
    pub closed spec fn queue(&self) -> Seq<TaskV> {
        self.to_check@.map_values(
            |t: (String, &'a Inter, Option<&'a Inter>)| (t.0@, t.1@, opt_view(t.2)),
        )
    }

    /// The incompatibilities that are still to come, in order.
    pub open spec fn pending(&self) -> Seq<IncompatView> {
        run(self.queue())
    }

    /// Yields the next incompatibility, or `None` when there are none left.
    #[verifier::loop_isolation(false)]
    pub fn next(&mut self) -> (r: Option<Incompatibility>)
        ensures
            match r {
                None => old(self).pending().len() == 0 && final(self).pending().len() == 0,
                Some(e) => {
                    &&& old(self).pending().len() > 0
                    &&& e@ == old(self).pending()[0]
                    &&& final(self).pending() == old(self).pending().drop_first()
                },
            },
        decreases old_size(old(self).queue()), new_size(old(self).queue()), 1nat,
    {
        let ghost q0 = self.queue();
        loop
            invariant
                run(self.queue()) == run(q0),
                old_size(self.queue()) < old_size(q0) || self.queue() == q0,
            decreases old_size(self.queue()),
        {
            let ghost before = self.queue();
            let popped = self.to_check.pop_front();
            match popped {
                None => {
                    return None;
                },
                Some(t) => {
                    let (path, node, possible_peer) = t;
                    let ghost after = self.queue();
                    proof {
                        assert(after =~= before.drop_first());
                        assert(before[0] == (path@, node@, opt_view(possible_peer)));
                    }
                    proof {
                        assert(old_size(before) == size(node@) + old_size(after));
                        assert(new_size(before) == opt_size(opt_view(possible_peer)) + new_size(after));
                    }
                    match possible_peer {
                        None => {
                            assert(run(before) == seq![IncompatView::ContainedDiverges(path@)] + run(after));
                            return Some(Incompatibility::ContainedDiverges(path));
                        },
                        Some(peer) => {
                            match peer {
                                Inter::Nominal(pn) => {
                                    match node {
                                        Inter::Nominal(n) => {
                                            if *n != *pn {
                                                assert(run(before) == seq![IncompatView::MismatchedName(path@)] + run(after));
                                                return Some(Incompatibility::MismatchedName(path));
                                            }
                                            assert(run(before) == run(after));
                                        },
                                        _ => {
                                            assert(run(before) == seq![IncompatView::ContainerDiverges(path@)] + run(after));
                                            return Some(Incompatibility::ContainerDiverges(path));
                                        },
                                    }
                                },
                                Inter::Product(pfs) => {
                                    match node {
                                        Inter::Product(fs) => {
                                            let ghost p = path@;
                                            self.push_members(path, node, fs, pfs, peer);
                                            proof {
                                                let kids = field_tasks(p, node@->Product_0, peer@->Product_0);
                                                lemma_old_size_concat(after, kids);
                                                lemma_field_tasks_size(p, node@->Product_0, peer@->Product_0);
                                                assert(run(before) == run(after + kids));
                                            }
                                        },
                                        _ => {
                                            assert(run(before) == seq![IncompatView::ContainerDiverges(path@)] + run(after));
                                            return Some(Incompatibility::ContainerDiverges(path));
                                        },
                                    }
                                },
                                Inter::Sum(pvs) => {
                                    match node {
                                        Inter::Sum(vs) => {
                                            let ghost p = path@;
                                            self.push_variants(path, node, vs, peer);
                                            proof {
                                                let kids = variant_tasks(p, node@->Sum_0, peer@);
                                                lemma_old_size_concat(after, kids);
                                                lemma_variant_tasks_size(p, node@->Sum_0, peer@);
                                                assert(run(before) == run(after + kids));
                                            }
                                        },
                                        _ => {
                                            let ghost pv = variants_view(*peer, width(*peer));
                                            proof {
                                                lemma_variants_view(*peer, width(*peer));
                                                assert(size(peer@) == 1 + variants_size(pv));
                                            }
                                            let mut compatible = false;
                                            let mut j: usize = 0;
                                            while j < pvs.len() && !compatible
                                                invariant
                                                    j <= pvs.len(),
                                                    pv.len() == pvs.len(),
                                                    forall|m: int| 0 <= m < pvs.len() ==> #[trigger] pv[m] == pvs@[m]@,
                                                    compatible ==> fits_any(node@, pv),
                                                    !compatible ==> forall|m: int| 0 <= m < j ==> !#[trigger] fits(node@, pv[m]),
                                                decreases pvs.len() - j,
                                            {
                                                proof {
                                                    lemma_variants_size_member(pv, j as int);
                                                }
                                                if node.contained_by(&pvs[j]) {
                                                    compatible = true;
                                                    proof {
                                                        lemma_fits_any(node@, pv);
                                                    }
                                                }
                                                j += 1;
                                            }
                                            proof {
                                                lemma_fits_any(node@, pv);
                                            }
                                            if !compatible {
                                                assert(run(before) == seq![IncompatView::ContainerDiverges(path@)] + run(after));
                                                return Some(Incompatibility::ContainerDiverges(path));
                                            }
                                            assert(run(before) == run(after));
                                        },
                                    }
                                },
                                Inter::Never => {
                                    assert(run(before) == run(after));
                                },
                            }
                        },
                    }
                },
            }
        }
    }

    /// All the incompatibilities that are still to come, in order.
    #[verifier::loop_isolation(false)]
    pub fn collect(&mut self) -> (r: Vec<Incompatibility>)
        ensures
            views(r@) == old(self).pending(),
            final(self).pending().len() == 0,
    {
        let ghost all = self.pending();
        let mut out: Vec<Incompatibility> = Vec::new();
        loop
            invariant
                views(out@) + self.pending() == all,
            decreases self.pending().len(),
        {
            let ghost before = views(out@);
            match self.next() {
                None => {
                    assert(views(out@) =~= all);
                    return out;
                },
                Some(e) => {
                    let ghost ev = e@;
                    out.push(e);
                    assert(views(out@) =~= before.push(ev));
                    assert(views(out@) + self.pending() =~= all);
                },
            }
        }
    }

    /// Puts the members of the product `node` at the back of the queue, each with the member
    /// of `peer` of the same name.
    #[verifier::loop_isolation(false)]
    fn push_members(
        &mut self,
        path: String,
        node: &'a Inter,
        fs: &'a Vec<(String, Inter)>,
        pfs: &'a Vec<(String, Inter)>,
        peer: &'a Inter,
    )
        requires
            *node == Inter::Product(*fs),
            *peer == Inter::Product(*pfs),
        ensures
            final(self).queue() == old(self).queue() + field_tasks(
                path@,
                node@->Product_0,
                peer@->Product_0,
            ),
    {
        let ghost q = self.queue();
        let ghost fv = node@->Product_0;
        proof {
            lemma_fields_view(*node, width(*node));
            lemma_fields_view(*peer, width(*peer));
            reveal_strlit(".");
        }
        let mut i: usize = 0;
        while i < fs.len()
            invariant
                i <= fs.len(),
                fv.len() == fs.len(),
                forall|m: int| 0 <= m < fs.len() ==> #[trigger] fv[m] == (fs@[m].0@, fs@[m].1@),
                self.queue() == q + field_tasks(path@, fv, peer@->Product_0).take(i as int),
            decreases fs.len() - i,
        {
            proof {
                reveal_strlit(".");
            }
            let mut p = path.clone();
            p.append(".");
            p.append(fs[i].0.as_str());
            let found = find_member(pfs, &fs[i].0);
            let ghost before = self.to_check@;
            let entry = (p, &fs[i].1, found);
            self.to_check.push_back(entry);
            proof {
                let f = |t: (String, &'a Inter, Option<&'a Inter>)| (t.0@, t.1@, opt_view(t.2));
                assert(self.to_check@ == before.push(entry));
                assert(before.push(entry).map_values(f) =~= before.map_values(f).push(f(entry)));
                assert(f(entry) == field_tasks(path@, fv, peer@->Product_0)[i as int]);
                assert(self.queue() =~= q + field_tasks(path@, fv, peer@->Product_0).take(i + 1));
            }
            i += 1;
        }
        assert(field_tasks(path@, fv, peer@->Product_0).take(i as int) =~= field_tasks(
            path@,
            fv,
            peer@->Product_0,
        ));
    }

    /// Puts the variants of the sum `node` at the back of the queue, each against the whole
    /// of `peer`.
    #[verifier::loop_isolation(false)]
    fn push_variants(&mut self, path: String, node: &'a Inter, vs: &'a Vec<Inter>, peer: &'a Inter)
        requires
            *node == Inter::Sum(*vs),
        ensures
            final(self).queue() == old(self).queue() + variant_tasks(path@, node@->Sum_0, peer@),
    {
        let ghost q = self.queue();
        let ghost vv = node@->Sum_0;
        proof {
            lemma_variants_view(*node, width(*node));
        }
        let mut i: usize = 0;
        while i < vs.len()
            invariant
                i <= vs.len(),
                vv.len() == vs.len(),
                forall|m: int| 0 <= m < vs.len() ==> #[trigger] vv[m] == vs@[m]@,
                self.queue() == q + variant_tasks(path@, vv, peer@).take(i as int),
            decreases vs.len() - i,
        {
            let ghost before = self.to_check@;
            let entry = (path.clone(), &vs[i], Some(peer));
            self.to_check.push_back(entry);
            proof {
                let f = |t: (String, &'a Inter, Option<&'a Inter>)| (t.0@, t.1@, opt_view(t.2));
                assert(self.to_check@ == before.push(entry));
                assert(before.push(entry).map_values(f) =~= before.map_values(f).push(f(entry)));
                assert(f(entry) == variant_tasks(path@, vv, peer@)[i as int]);
                assert(self.queue() =~= q + variant_tasks(path@, vv, peer@).take(i + 1));
            }
            i += 1;
        }
        assert(variant_tasks(path@, vv, peer@).take(i as int) =~= variant_tasks(path@, vv, peer@));
    }
}

/// How two interfaces compare under containment in both directions.
pub open spec fn compare_spec(a: InterV, b: InterV) -> Option<std::cmp::Ordering> {
    if fits(a, b) && fits(b, a) {
        Some(std::cmp::Ordering::Equal)
    } else if fits(b, a) {
        Some(std::cmp::Ordering::Greater)
    } else if fits(a, b) {
        Some(std::cmp::Ordering::Less)
    } else {
        None
    }
}

impl Inter {
    /// Compares two interfaces: equal when each fits within the other, greater when only `rhs`
    /// fits within `self`, less when only `self` fits within `rhs`, and `None` otherwise.
    pub fn compare(&self, rhs: &Self) -> (r: Option<std::cmp::Ordering>)
        ensures
            r == compare_spec(self@, rhs@),
    {
        let rhs_contains_self = self.contained_by(rhs);
        let self_contains_rhs = rhs.contained_by(self);
        if self_contains_rhs {
            if rhs_contains_self {
                Some(std::cmp::Ordering::Equal)
            } else {
                Some(std::cmp::Ordering::Greater)
            }
        } else if rhs_contains_self {
            Some(std::cmp::Ordering::Less)
        } else {
            None
        }
    }

    /// Whether every value that `self` describes is also described by `peer`; stops at the
    /// first incompatibility.
    ///
    /// A new side that adds product members or sum variants still contains the old side; one
    /// that drops a member, renames a nominal type or changes the kind of a node does not. As a
    /// deliberate policy, `Never` on the new side accepts any old node.
    pub fn contained_by(&self, peer: &Self) -> (r: bool)
        ensures
            r == fits(self@, peer@),
        decreases size(self@), size(peer@), 2nat,
    {
        let mut s = self.try_fit_within(peer);
        proof {
            let q = s.queue();
            assert(q.drop_first() =~= Seq::<TaskV>::empty());
            assert(old_size(q) == size(self@) + old_size(q.drop_first()));
            assert(new_size(q) == size(peer@) + new_size(q.drop_first()));
        }
        let first = s.next();
        first.is_none()
    }

    /// The incompatibilities that keep `self` from fitting within `peer`, produced on demand
    /// in breadth-first order. As a deliberate policy, `Never` on the new side accepts any old
    /// node and yields nothing; an old node that is not a sum fits a new sum when it fits one
    /// of its variants, and yields `ContainerDiverges` otherwise.
    pub fn try_fit_within<'a>(&'a self, peer: &'a Self) -> (r: IncompatibilityStream<'a>)
        ensures
            r.queue() == seq![(Seq::<char>::empty(), self@, Some(peer@))],
            r.pending() == run(seq![(Seq::<char>::empty(), self@, Some(peer@))]),
    {
        let mut to_check: VecDeque<(String, &'a Inter, Option<&'a Inter>)> = VecDeque::new();
        to_check.push_back((String::new(), self, Some(peer)));
        let r = IncompatibilityStream { to_check };
        assert(r.queue() =~= seq![(Seq::<char>::empty(), self@, Some(peer@))]);
        r
    }
}

/// Two interfaces that each fit within the other compare as equal.
pub proof fn lemma_mutual_containment_is_equal(a: InterV, b: InterV)
    requires
        fits(a, b),
        fits(b, a),
    ensures
        compare_spec(a, b) == Some(std::cmp::Ordering::Equal),
{
}

/// No two members of a product share a name.
pub open spec fn names_distinct(fs: Seq<(Seq<char>, InterV)>) -> bool {
    forall|i: int, j: int| 0 <= i < j < fs.len() ==> fs[i].0 != fs[j].0
}

/// No product names a member twice, at any depth.
pub open spec fn wf_inter(i: InterV) -> bool
    decreases i,
{
    match i {
        InterV::Product(fs) => names_distinct(fs) && fields_wf(fs),
        InterV::Sum(vs) => variants_wf(vs),
        _ => true,
    }
}

pub open spec fn fields_wf(fs: Seq<(Seq<char>, InterV)>) -> bool
    decreases fs,
{
    fs.len() == 0 || (wf_inter(fs[0].1) && fields_wf(fs.drop_first()))
}

pub open spec fn variants_wf(vs: Seq<InterV>) -> bool
    decreases vs,
{
    vs.len() == 0 || (wf_inter(vs[0]) && variants_wf(vs.drop_first()))
}

pub proof fn lemma_fields_wf(fs: Seq<(Seq<char>, InterV)>)
    requires
        fields_wf(fs),
    ensures
        forall|j: int| 0 <= j < fs.len() ==> #[trigger] wf_inter(fs[j].1),
    decreases fs.len(),
{
    if fs.len() > 0 {
        lemma_fields_wf(fs.drop_first());
        assert forall|j: int| 0 <= j < fs.len() implies #[trigger] wf_inter(fs[j].1) by {
            if j > 0 {
                assert(fs.drop_first()[j - 1] == fs[j]);
            }
        }
    }
}

pub proof fn lemma_variants_wf(vs: Seq<InterV>)
    requires
        variants_wf(vs),
    ensures
        forall|j: int| 0 <= j < vs.len() ==> #[trigger] wf_inter(vs[j]),
    decreases vs.len(),
{
    if vs.len() > 0 {
        lemma_variants_wf(vs.drop_first());
        assert forall|j: int| 0 <= j < vs.len() implies #[trigger] wf_inter(vs[j]) by {
            if j > 0 {
                assert(vs.drop_first()[j - 1] == vs[j]);
            }
        }
    }
}

/// `o` is `n` itself, or stands, at some depth, among the variants of the sum `n`.
pub open spec fn embedded(o: InterV, n: InterV) -> bool
    decreases n,
{
    o == n || match n {
        InterV::Sum(vs) => embedded_any(o, vs),
        _ => false,
    }
}

pub open spec fn embedded_any(o: InterV, vs: Seq<InterV>) -> bool
    decreases vs,
{
    vs.len() > 0 && (embedded(o, vs[0]) || embedded_any(o, vs.drop_first()))
}

pub proof fn lemma_embedded_any(o: InterV, vs: Seq<InterV>)
    ensures
        embedded_any(o, vs) <==> exists|j: int| 0 <= j < vs.len() && #[trigger] embedded(o, vs[j]),
    decreases vs.len(),
{
    if vs.len() > 0 {
        let rest = vs.drop_first();
        lemma_embedded_any(o, rest);
        assert(embedded_any(o, vs) == (embedded(o, vs[0]) || embedded_any(o, rest)));
        if embedded_any(o, rest) {
            let j = choose|j: int| 0 <= j < rest.len() && #[trigger] embedded(o, rest[j]);
            assert(rest[j] == vs[j + 1]);
            assert(embedded(o, vs[j + 1]));
        }
        if exists|j: int| 0 <= j < vs.len() && #[trigger] embedded(o, vs[j]) {
            let j = choose|j: int| 0 <= j < vs.len() && #[trigger] embedded(o, vs[j]);
            if j > 0 {
                assert(rest[j - 1] == vs[j]);
                assert(embedded(o, rest[j - 1]));
            }
        }
    }
}

/// A variant of a sum that is embedded in `n` is itself embedded in `n`.
pub proof fn lemma_embedded_variant(ws: Seq<InterV>, k: int, n: InterV)
    requires
        0 <= k < ws.len(),
        embedded(InterV::Sum(ws), n),
    ensures
        embedded(ws[k], n),
    decreases n,
{
    if InterV::Sum(ws) == n {
        assert(embedded(ws[k], ws[k]));
        lemma_embedded_any(ws[k], ws);
    } else {
        let vs = n->Sum_0;
        lemma_embedded_any(InterV::Sum(ws), vs);
        let j = choose|j: int| 0 <= j < vs.len() && #[trigger] embedded(InterV::Sum(ws), vs[j]);
        lemma_embedded_variant(ws, k, vs[j]);
        lemma_embedded_any(ws[k], vs);
    }
}

pub proof fn lemma_lookup_own(fs: Seq<(Seq<char>, InterV)>, j: int)
    requires
        names_distinct(fs),
        0 <= j < fs.len(),
    ensures
        lookup(fs, fs[j].0) == Some(fs[j].1),
{
    lemma_lookup(fs, fs[j].0, j);
}

/// An entry of the queue whose old node stands embedded in a well-formed new node.
pub open spec fn settled(t: TaskV) -> bool {
    &&& t.2 is Some
    &&& wf_inter(t.2->0)
    &&& embedded(t.1, t.2->0)
}

/// A queue of settled entries yields no incompatibility.
pub proof fn lemma_run_settled(q: Seq<TaskV>)
    requires
        forall|i: int| 0 <= i < q.len() ==> #[trigger] settled(q[i]),
    ensures
        run(q).len() == 0,
    decreases old_size(q), new_size(q),
{
    if q.len() > 0 {
        let path = q[0].0;
        let o = q[0].1;
        let n = q[0].2->0;
        let rest = q.drop_first();
        assert(settled(q[0]));
        assert forall|i: int| 0 <= i < rest.len() implies #[trigger] settled(rest[i]) by {
            assert(rest[i] == q[i + 1]);
        }
        assert(old_size(q) == size(o) + old_size(rest));
        assert(new_size(q) == size(n) + new_size(rest));
        match n {
            InterV::Product(pfs) => {
                assert(o == n);
                let kids = field_tasks(path, pfs, pfs);
                lemma_fields_wf(pfs);
                assert forall|j: int| 0 <= j < kids.len() implies #[trigger] settled(kids[j]) by {
                    lemma_lookup_own(pfs, j);
                }
                let next = rest + kids;
                assert forall|i: int| 0 <= i < next.len() implies #[trigger] settled(next[i]) by {
                    if i < rest.len() {
                        assert(next[i] == rest[i]);
                    } else {
                        assert(next[i] == kids[i - rest.len()]);
                    }
                }
                lemma_old_size_concat(rest, kids);
                lemma_field_tasks_size(path, pfs, pfs);
                lemma_run_settled(next);
            },
            InterV::Sum(pvs) => {
                lemma_variants_wf(pvs);
                match o {
                    InterV::Sum(ws) => {
                        let kids = variant_tasks(path, ws, n);
                        assert forall|j: int| 0 <= j < kids.len() implies #[trigger] settled(kids[j]) by {
                            lemma_embedded_variant(ws, j, n);
                        }
                        let next = rest + kids;
                        assert forall|i: int| 0 <= i < next.len() implies #[trigger] settled(next[i]) by {
                            if i < rest.len() {
                                assert(next[i] == rest[i]);
                            } else {
                                assert(next[i] == kids[i - rest.len()]);
                            }
                        }
                        lemma_old_size_concat(rest, kids);
                        lemma_variant_tasks_size(path, ws, n);
                        lemma_run_settled(next);
                    },
                    _ => {
                        lemma_embedded_any(o, pvs);
                        let j = choose|j: int| 0 <= j < pvs.len() && #[trigger] embedded(o, pvs[j]);
                        let single: Seq<TaskV> = seq![(Seq::empty(), o, Some(pvs[j]))];
                        assert(single.drop_first() =~= Seq::<TaskV>::empty());
                        assert(old_size(single) == size(o) + old_size(single.drop_first()));
                        assert(new_size(single) == size(pvs[j]) + new_size(single.drop_first()));
                        lemma_variants_size_member(pvs, j);
                        assert(settled(single[0]));
                        lemma_run_settled(single);
                        assert(fits(o, pvs[j]));
                        lemma_fits_any(o, pvs);
                        lemma_run_settled(rest);
                    },
                }
            },
            _ => {
                lemma_run_settled(rest);
            },
        }
    }
}

/// Containment is reflexive: every well-formed interface fits within itself.
pub proof fn lemma_fits_reflexive(x: InterV)
    requires
        wf_inter(x),
    ensures
        fits(x, x),
{
    let q: Seq<TaskV> = seq![(Seq::empty(), x, Some(x))];
    assert(settled(q[0]));
    lemma_run_settled(q);
}

/// Every entry of `a` is also an entry of `b`.
pub open spec fn entries_within<T>(a: Seq<T>, b: Seq<T>) -> bool {
    forall|i: int| 0 <= i < a.len() ==> exists|j: int| 0 <= j < b.len() && b[j] == #[trigger] a[i]
}

proof fn lemma_reordered_product_fits(fs: Seq<(Seq<char>, InterV)>, gs: Seq<(Seq<char>, InterV)>)
    requires
        wf_inter(InterV::Product(fs)),
        wf_inter(InterV::Product(gs)),
        entries_within(fs, gs),
    ensures
        fits(InterV::Product(fs), InterV::Product(gs)),
{
    let a = InterV::Product(fs);
    let b = InterV::Product(gs);
    let q: Seq<TaskV> = seq![(Seq::empty(), a, Some(b))];
    let kids = field_tasks(Seq::empty(), fs, gs);
    assert(q.drop_first() + kids =~= kids);
    assert(run(q) == run(q.drop_first() + kids));
    lemma_fields_wf(gs);
    assert forall|i: int| 0 <= i < kids.len() implies #[trigger] settled(kids[i]) by {
        let j = choose|j: int| 0 <= j < gs.len() && gs[j] == #[trigger] fs[i];
        lemma_lookup_own(gs, j);
        assert(wf_inter(gs[j].1));
    }
    lemma_run_settled(kids);
}

proof fn lemma_reordered_sum_fits(vs: Seq<InterV>, ws: Seq<InterV>)
    requires
        wf_inter(InterV::Sum(ws)),
        entries_within(vs, ws),
    ensures
        fits(InterV::Sum(vs), InterV::Sum(ws)),
{
    let a = InterV::Sum(vs);
    let b = InterV::Sum(ws);
    let q: Seq<TaskV> = seq![(Seq::empty(), a, Some(b))];
    let kids = variant_tasks(Seq::empty(), vs, b);
    assert(q.drop_first() + kids =~= kids);
    assert(run(q) == run(q.drop_first() + kids));
    assert forall|i: int| 0 <= i < kids.len() implies #[trigger] settled(kids[i]) by {
        let j = choose|j: int| 0 <= j < ws.len() && ws[j] == #[trigger] vs[i];
        assert(embedded(ws[j], ws[j]));
        lemma_embedded_any(vs[i], ws);
    }
    lemma_run_settled(kids);
}

/// The order of the members of a product does not matter: two well-formed products with the
/// same members, in any order, compare as equal.
pub proof fn lemma_reordered_product_equal(
    fs: Seq<(Seq<char>, InterV)>,
    gs: Seq<(Seq<char>, InterV)>,
)
    requires
        wf_inter(InterV::Product(fs)),
        wf_inter(InterV::Product(gs)),
        entries_within(fs, gs),
        entries_within(gs, fs),
    ensures
        compare_spec(InterV::Product(fs), InterV::Product(gs)) == Some(std::cmp::Ordering::Equal),
{
    lemma_reordered_product_fits(fs, gs);
    lemma_reordered_product_fits(gs, fs);
}

/// The order of the variants of a sum does not matter: two well-formed sums with the same
/// variants, in any order, compare as equal.
pub proof fn lemma_reordered_sum_equal(vs: Seq<InterV>, ws: Seq<InterV>)
    requires
        wf_inter(InterV::Sum(vs)),
        wf_inter(InterV::Sum(ws)),
        entries_within(vs, ws),
        entries_within(ws, vs),
    ensures
        compare_spec(InterV::Sum(vs), InterV::Sum(ws)) == Some(std::cmp::Ordering::Equal),
{
    lemma_reordered_sum_fits(vs, ws);
    lemma_reordered_sum_fits(ws, vs);
}

} // verus!

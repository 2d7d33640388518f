//! A minimal decision tree that dispatches a sparse set of machine-word keys,
//! each labelled with an opaque payload, to their label using few bit
//! extractions.  At each branch a discriminator — a bit window or a cheap
//! numeric transform, calibrated per subset — maps the key to a bucket index
//! into the children array; the builder tries every supplied strategy at
//! every node and keeps the candidate of least depth.

mod laws;
mod methods;

use vstd::prelude::*;

pub use laws::lemma_absent_key;
pub use laws::lemma_build_deterministic;
pub use laws::lemma_closed_dispatch;
pub use laws::lemma_depth_minimal;

pub use methods::ClzSub;
pub use methods::Ctz;
pub use methods::HashFn;
pub use methods::HashMethod;
pub use methods::ShiftMask;
pub use methods::Strategy;
pub use methods::SubLow;
pub use methods::Window;

verus! {

use crate::methods::distinct_seq;

/// A terminal outcome of dispatch: either a matched key with its payload, or
/// the default (no match) result.
pub enum Marker<T> {
    Case(u64, T),
    Default,
}

/// A dispatch tree: a branch holds its discriminator and one child per
/// bucket; a leaf holds a marker.
pub enum Tree<T> {
    Branch { children: Vec<Tree<T>>, hash_fn: HashFn },
    Leaf(Marker<T>),
}

/// The mathematical shape of a dispatch tree: what a consumer walks.
pub enum TreeM<T> {
    Branch { children: Seq<TreeM<T>>, f: HashFn },
    Leaf(Marker<T>),
}

/// The shapes of the trees of a sequence, in order.
pub open spec fn view_seq<T>(s: Seq<Tree<T>>) -> Seq<TreeM<T>>
    decreases s,
{
    if s.len() == 0 {
        Seq::empty()
    } else {
        view_seq(s.drop_last()).push(s.last().view())
    }
}

impl<T> View for Tree<T> {
    type V = TreeM<T>;

    open spec fn view(&self) -> TreeM<T>
        decreases self,
    {
        match self {
            Tree::Leaf(m) => TreeM::Leaf(*m),
            Tree::Branch { children, hash_fn } => TreeM::Branch {
                children: view_seq(children@),
                f: *hash_fn,
            },
        }
    }
}

/// The shape sequence matches the tree sequence pointwise.
pub proof fn lemma_view_seq<T>(s: Seq<Tree<T>>)
    ensures
        view_seq(s).len() == s.len(),
        forall|i: int| 0 <= i < s.len() ==> view_seq(s)[i] == s[i]@,
    decreases s,
{
    if s.len() > 0 {
        lemma_view_seq(s.drop_last());
        assert(view_seq(s) == view_seq(s.drop_last()).push(s.last()@));
        assert(view_seq(s).len() == s.len());
        assert forall|i: int| 0 <= i < s.len() implies view_seq(s)[i] == s[i]@ by {
            if i < s.len() - 1 {
                assert(s.drop_last()[i] == s[i]);
                assert(view_seq(s)[i] == view_seq(s.drop_last())[i]);
            } else {
                assert(view_seq(s)[i] == s.last()@);
            }
        }
    }
}

/// Well-formed: every branch's discriminator is well formed and its children
/// array has exactly one densely indexed child per bucket.
pub open spec fn wf_m<T>(t: TreeM<T>) -> bool
    decreases t,
{
    match t {
        TreeM::Leaf(_) => true,
        TreeM::Branch { children, f } => f.wf() && children.len() == f.spec_size()
            && children.len() >= 1 && (forall|i: int|
            0 <= i < children.len() ==> wf_m(#[trigger] children[i])),
    }
}

/// The walk: at each branch apply the discriminator to the key and follow the
/// child at the returned bucket; a key with no bucket, or with a bucket past
/// the children array, dispatches to Default.  Total for every tree and key.
pub open spec fn lookup_m<T>(t: TreeM<T>, key: u64) -> Marker<T>
    decreases t,
{
    match t {
        TreeM::Leaf(m) => m,
        TreeM::Branch { children, f } => match f.spec_hash(key) {
            Option::Some(h) => if (h as int) < children.len() {
                lookup_m(children[h as int], key)
            } else {
                Marker::Default
            },
            Option::None => Marker::Default,
        },
    }
}

/// Depth of a tree: 1 for a leaf, 1 more than the deepest child for a branch.
pub open spec fn depth_m<T>(t: TreeM<T>) -> nat
    decreases t,
{
    match t {
        TreeM::Leaf(_) => 1,
        TreeM::Branch { children, f } => 1 + depth_seq_m(children),
    }
}

/// The greatest depth among a sequence of trees (0 for an empty one).
pub open spec fn depth_seq_m<T>(s: Seq<TreeM<T>>) -> nat
    decreases s,
{
    if s.len() == 0 {
        0
    } else {
        let d = depth_m(s.last());
        let rest = depth_seq_m(s.drop_last());
        if d > rest {
            d
        } else {
            rest
        }
    }
}

/// Every tree of the sequence is at most as deep as the sequence's depth.
pub proof fn lemma_depth_seq_ge<T>(s: Seq<TreeM<T>>)
    ensures
        forall|i: int| 0 <= i < s.len() ==> depth_m(#[trigger] s[i]) <= depth_seq_m(s),
    decreases s,
{
    if s.len() > 0 {
        lemma_depth_seq_ge(s.drop_last());
        assert forall|i: int| 0 <= i < s.len() implies depth_m(#[trigger] s[i]) <= depth_seq_m(
            s,
        ) by {
            if i < s.len() - 1 {
                assert(s.drop_last()[i] == s[i]);
            }
        }
    }
}

/// A bound on every tree of the sequence bounds the sequence's depth.
pub proof fn lemma_depth_seq_le<T>(s: Seq<TreeM<T>>, bound: nat)
    requires
        forall|i: int| 0 <= i < s.len() ==> depth_m(#[trigger] s[i]) <= bound,
    ensures
        depth_seq_m(s) <= bound,
    decreases s,
{
    if s.len() > 0 {
        assert forall|i: int| 0 <= i < s.drop_last().len() implies depth_m(
            #[trigger] s.drop_last()[i],
        ) <= bound by {
            assert(s.drop_last()[i] == s[i]);
        }
        lemma_depth_seq_le(s.drop_last(), bound);
    }
}

/// Why a construction failed.
#[derive(Debug, PartialEq, Eq)]
pub enum BuildError {
    /// Two input entries share a key.
    DuplicateCase,
    /// On some subset of more than one key, every supplied strategy was
    /// rejected or failed to shrink the subset.
    NoProductiveStrategy,
}

/// The keys of `cases` that the discriminator sends to bucket `slot`, in
/// their original order.
pub open spec fn sel_keys(cases: Seq<u64>, f: HashFn, slot: u64) -> Seq<u64>
    decreases cases.len(),
{
    if cases.len() == 0 {
        Seq::empty()
    } else {
        let rest = sel_keys(cases.drop_last(), f, slot);
        if f.spec_hash(cases.last()) == Option::Some(slot) {
            rest.push(cases.last())
        } else {
            rest
        }
    }
}

/// The payloads whose keys the discriminator sends to bucket `slot`, in
/// their original order.
pub open spec fn sel_vals<T>(cases: Seq<u64>, data: Seq<T>, f: HashFn, slot: u64) -> Seq<T>
    decreases cases.len(),
{
    if cases.len() == 0 {
        Seq::empty()
    } else {
        let rest = sel_vals(cases.drop_last(), data.drop_last(), f, slot);
        if f.spec_hash(cases.last()) == Option::Some(slot) {
            rest.push(data[cases.len() - 1])
        } else {
            rest
        }
    }
}

/// (`k`, `v`) is one of the input entries.
pub open spec fn is_input_pair<T>(cases: Seq<u64>, data: Seq<T>, k: u64, v: T) -> bool {
    exists|i: int| 0 <= i < cases.len() && #[trigger] cases[i] == k && data[i] == v
}

/// Every case leaf the walk can reach in `t` carries one of the input
/// entries: the tree invents no keys and no payloads.
pub open spec fn leaves_from<T>(t: TreeM<T>, cases: Seq<u64>, data: Seq<T>) -> bool {
    forall|key: u64|
        (#[trigger] lookup_m(t, key)) matches Marker::Case(k2, v2) ==> is_input_pair(
            cases,
            data,
            k2,
            v2,
        )
}

/// What partitioning preserves: the selected keys and payloads stay paired,
/// a bucket is never larger than its source, every selected key comes from
/// the source, and distinctness carries over.
pub proof fn lemma_sel<T>(cases: Seq<u64>, data: Seq<T>, f: HashFn, slot: u64)
    requires
        cases.len() == data.len(),
    ensures
        sel_keys(cases, f, slot).len() == sel_vals(cases, data, f, slot).len(),
        sel_keys(cases, f, slot).len() <= cases.len(),
        forall|j: int|
            0 <= j < sel_keys(cases, f, slot).len() ==> cases.contains(
                #[trigger] sel_keys(cases, f, slot)[j],
            ),
        forall|i: int|
            0 <= i < cases.len() && f.spec_hash(#[trigger] cases[i]) == Option::Some(slot)
                ==> exists|j: int|
                0 <= j < sel_keys(cases, f, slot).len() && sel_keys(cases, f, slot)[j] == cases[i]
                    && sel_vals(cases, data, f, slot)[j] == data[i],
        forall|j: int|
            0 <= j < sel_keys(cases, f, slot).len() ==> is_input_pair(
                cases,
                data,
                #[trigger] sel_keys(cases, f, slot)[j],
                sel_vals(cases, data, f, slot)[j],
            ),
        distinct_seq(cases) ==> distinct_seq(sel_keys(cases, f, slot)),
    decreases cases.len(),
{
    if cases.len() > 0 {
        let cr = cases.drop_last();
        let dr = data.drop_last();
        lemma_sel(cr, dr, f, slot);
        let sk = sel_keys(cases, f, slot);
        let sv = sel_vals(cases, data, f, slot);
        let skr = sel_keys(cr, f, slot);
        let svr = sel_vals(cr, dr, f, slot);
        assert forall|j: int| 0 <= j < skr.len() implies cases.contains(#[trigger] skr[j]) by {
            assert(cr.contains(skr[j]));
            let w = choose|w: int| 0 <= w < cr.len() && cr[w] == skr[j];
            assert(cases[w] == skr[j]);
        }
        assert forall|i: int|
            0 <= i < cases.len() && f.spec_hash(#[trigger] cases[i]) == Option::Some(
                slot,
            ) implies exists|j: int|
            0 <= j < sk.len() && sk[j] == cases[i] && sv[j] == data[i] by {
            if i < cases.len() - 1 {
                assert(cr[i] == cases[i] && dr[i] == data[i]);
                let j = choose|j: int|
                    0 <= j < skr.len() && skr[j] == cr[i] && #[trigger] svr[j] == dr[i];
                assert(sk[j] == cases[i] && sv[j] == data[i]);
            } else {
                assert(sk[sk.len() - 1] == cases[i] && sv[sk.len() - 1] == data[i]);
            }
        }
        assert forall|j: int| 0 <= j < sk.len() implies is_input_pair(
            cases,
            data,
            #[trigger] sk[j],
            sv[j],
        ) by {
            if j < skr.len() {
                assert(is_input_pair(cr, dr, skr[j], svr[j]));
                let w = choose|w: int| 0 <= w < cr.len() && #[trigger] cr[w] == skr[j] && dr[w]
                    == svr[j];
                assert(cases[w] == sk[j] && data[w] == sv[j]);
            } else {
                assert(cases[cases.len() - 1] == sk[j] && data[cases.len() - 1] == sv[j]);
            }
        }
        if distinct_seq(cases) {
            assert forall|p: int, q: int| 0 <= p < q < cr.len() implies cr[p] != cr[q] by {
                assert(cases[p] == cr[p] && cases[q] == cr[q]);
            }
            if f.spec_hash(cases.last()) == Option::Some(slot) {
                assert forall|p: int, q: int| 0 <= p < q < sk.len() implies sk[p] != sk[q] by {
                    if q < sk.len() - 1 {
                        assert(skr[p] == sk[p] && skr[q] == sk[q]);
                    } else {
                        assert(sk[q] == cases.last());
                        assert(cr.contains(skr[p]));
                        let w = choose|w: int| 0 <= w < cr.len() && cr[w] == skr[p];
                        assert(cases[w] == skr[p]);
                        assert(cases[w] != cases[cases.len() - 1]);
                    }
                }
            } else {
                assert forall|p: int, q: int| 0 <= p < q < sk.len() implies sk[p] != sk[q] by {
                    assert(skr[p] == sk[p] && skr[q] == sk[q]);
                }
            }
        }
    }
}

/// Of two optional candidates, the shallower, favouring the incumbent.
pub open spec fn pick_best<T>(best: Option<TreeM<T>>, cand: Option<TreeM<T>>) -> Option<
    TreeM<T>,
> {
    match (best, cand) {
        (Option::None, c) => c,
        (Option::Some(b), Option::None) => Option::Some(b),
        (Option::Some(b), Option::Some(c)) => if depth_m(b) > depth_m(c) {
            Option::Some(c)
        } else {
            Option::Some(b)
        },
    }
}

/// The tree the builder produces on a key subset: a leaf for an empty or
/// singleton subset, otherwise the shallowest branch any strategy yields,
/// or nothing when no strategy is productive.
pub open spec fn try_build<T>(cases: Seq<u64>, data: Seq<T>, methods: Seq<Strategy>) -> Option<
    TreeM<T>,
>
    decreases cases.len(), 3int, 0int,
{
    if cases.len() == 0 {
        Option::Some(TreeM::Leaf(Marker::Default))
    } else if cases.len() == 1 {
        Option::Some(TreeM::Leaf(Marker::Case(cases[0], data[0])))
    } else {
        try_from(cases, data, methods, 0, Option::None)
    }
}

/// Fold the strategies from index `i` on, keeping the shallowest candidate;
/// ties favour the earliest strategy.
pub open spec fn try_from<T>(
    cases: Seq<u64>,
    data: Seq<T>,
    methods: Seq<Strategy>,
    i: int,
    best: Option<TreeM<T>>,
) -> Option<TreeM<T>>
    decreases cases.len(), 2int, methods.len() - i,
{
    if i < 0 || i >= methods.len() {
        best
    } else {
        try_from(
            cases,
            data,
            methods,
            i + 1,
            pick_best(best, try_method(cases, data, methods, methods[i])),
        )
    }
}

/// The candidate branch one strategy yields on a subset: rejected outright
/// when its bucket count exceeds the subset's size, otherwise a branch over
/// the recursively built buckets, each of which must be strictly smaller
/// than the subset and buildable.
pub open spec fn try_method<T>(
    cases: Seq<u64>,
    data: Seq<T>,
    methods: Seq<Strategy>,
    m: Strategy,
) -> Option<TreeM<T>>
    decreases cases.len(), 1int, 0int,
{
    let f = m.spec_new(cases);
    if f.spec_size() > cases.len() {
        Option::None
    } else {
        match build_buckets(cases, data, methods, f, 0) {
            Option::Some(ch) => Option::Some(TreeM::Branch { children: ch, f }),
            Option::None => Option::None,
        }
    }
}

/// Build the bucket subtrees from `slot` up: nothing if some bucket fails to
/// shrink below the subset or cannot itself be built.
pub open spec fn build_buckets<T>(
    cases: Seq<u64>,
    data: Seq<T>,
    methods: Seq<Strategy>,
    f: HashFn,
    slot: int,
) -> Option<Seq<TreeM<T>>>
    decreases cases.len(), 0int, f.spec_size() - slot,
{
    if slot < 0 || slot >= f.spec_size() {
        Option::Some(Seq::empty())
    } else {
        let sc = sel_keys(cases, f, slot as u64);
        let sd = sel_vals(cases, data, f, slot as u64);
        if sc.len() >= cases.len() {
            Option::None
        } else {
            match try_build(sc, sd, methods) {
                Option::None => Option::None,
                Option::Some(t) => match build_buckets(cases, data, methods, f, slot + 1) {
                    Option::None => Option::None,
                    Option::Some(ts) => Option::Some(seq![t] + ts),
                },
            }
        }
    }
}

/// Within the first `upto` bucket subtrees, the one at `key`'s bucket (if
/// `key` has a bucket there) dispatches `key` to its own case leaf.
pub open spec fn routed<T>(kids: Seq<TreeM<T>>, f: HashFn, key: u64, val: T, upto: int) -> bool {
    match f.spec_hash(key) {
        Option::Some(h) => (h as int) < upto ==> lookup_m(kids[h as int], key) == Marker::Case(
            key,
            val,
        ),
        Option::None => true,
    }
}

/// The shape of an optional tree.
pub open spec fn opt_view<T>(r: Option<Tree<T>>) -> Option<TreeM<T>> {
    match r {
        Option::Some(t) => Option::Some(t@),
        Option::None => Option::None,
    }
}

impl<T> Tree<T> {
    /// Assemble a branch from its children and discriminator.
    pub fn branch(children: Vec<Tree<T>>, hash_fn: HashFn) -> (t: Self)
        ensures
            t@ == (TreeM::Branch { children: view_seq(children@), f: hash_fn }),
    {
        Tree::Branch { children, hash_fn }
    }

    /// Depth of the tree.
    pub fn depth(&self) -> (d: usize)
        requires
            depth_m(self@) <= usize::MAX,
        ensures
            d == depth_m(self@),
        decreases self@,
    {
        match self {
            Tree::Leaf(_) => 1,
            Tree::Branch { children, hash_fn } => {
                proof {
                    lemma_view_seq(children@);
                    lemma_depth_seq_ge(view_seq(children@));
                }
                let mut m: usize = 0;
                let mut i: usize = 0;
                while i < children.len()
                    invariant
                        i <= children@.len(),
                        depth_m(self@) <= usize::MAX,
                        self@ == (TreeM::Branch {
                            children: view_seq(children@),
                            f: *hash_fn,
                        }),
                        view_seq(children@).len() == children@.len(),
                        forall|j: int|
                            0 <= j < children@.len() ==> view_seq(children@)[j] == children@[j]@,
                        forall|j: int|
                            0 <= j < children@.len() ==> depth_m(#[trigger] view_seq(children@)[j])
                                <= depth_seq_m(view_seq(children@)),
                        m == depth_seq_m(view_seq(children@).take(i as int)),
                    decreases children@.len() - i,
                {
                    proof {
                        let vs = view_seq(children@);
                        assert(vs.take(i as int + 1).drop_last() =~= vs.take(i as int));
                        assert(vs.take(i as int + 1).last() == vs[i as int]);
                        assert(decreases_to!(self@ => view_seq(children@)[i as int]));
                        assert(view_seq(children@)[i as int] == children@[i as int]@);
                    }
                    let d = children[i].depth();
                    if d > m {
                        m = d;
                    }
                    i += 1;
                }
                proof {
                    let vs = view_seq(children@);
                    assert(vs.take(vs.len() as int) =~= vs);
                }
                m + 1
            },
        }
    }
}

impl<T: Copy> Tree<T> {
    /// Build the dispatch tree for `cases` and their paired `data`, choosing
    /// among `methods` at every node.  Fails with DuplicateCase exactly when
    /// two entries share a key (checked once, before any recursion), and with
    /// NoProductiveStrategy exactly when, on some subset of more than one
    /// key, no strategy yields a valid branch.  On success the tree is well
    /// formed, walking it by any input key reaches that key's case leaf, its
    /// depth is minimal among the supplied strategies' candidates at the
    /// root, and its shape is a function of the inputs alone.  The bounds on
    /// the key count are machine limits: no vector of word-sized keys can
    /// come near them.
    pub fn new(cases: &Vec<u64>, data: &Vec<T>, methods: &Vec<Strategy>) -> (r: Result<
        Tree<T>,
        BuildError,
    >)
        requires
            cases@.len() == data@.len(),
            cases@.len() <= 0x8000_0000_0000_0000,
            cases@.len() < usize::MAX,
        ensures
            (r matches Err(BuildError::DuplicateCase)) <==> !distinct_seq(cases@),
            (r matches Err(BuildError::NoProductiveStrategy)) <==> (distinct_seq(cases@)
                && try_build::<T>(cases@, data@, methods@) is None),
            (r is Ok) <==> (distinct_seq(cases@) && try_build::<T>(cases@, data@, methods@)
                is Some),
            r matches Ok(t) ==> t@ == try_build(cases@, data@, methods@).unwrap(),
            r matches Ok(t) ==> wf_m(t@),
            r matches Ok(t) ==> depth_m(t@) <= cases@.len() + 1,
            r matches Ok(t) ==> forall|i: int|
                0 <= i < cases@.len() ==> lookup_m(t@, #[trigger] cases@[i]) == Marker::Case(
                    cases@[i],
                    data@[i],
                ),
            r matches Ok(t) ==> forall|i: int|
                0 <= i < methods@.len() && (#[trigger] try_method(
                    cases@,
                    data@,
                    methods@,
                    methods@[i],
                )) is Some ==> depth_m(t@) <= depth_m(
                    try_method(cases@, data@, methods@, methods@[i]).unwrap(),
                ),
            r matches Ok(t) ==> leaves_from(t@, cases@, data@),
    {
        let n = cases.len();
        let mut p: usize = 0;
        while p < n
            invariant
                n == cases@.len(),
                p <= n,
                forall|a: int, b: int| 0 <= a < b < n && a < p ==> cases@[a] != cases@[b],
            decreases n - p,
        {
            let mut q: usize = p + 1;
            while q < n
                invariant
                    n == cases@.len(),
                    p < q,
                    q <= n,
                    forall|b: int| p < b < q ==> cases@[p as int] != cases@[b],
                decreases n - q,
            {
                if cases[p] == cases[q] {
                    return Err(BuildError::DuplicateCase);
                }
                q += 1;
            }
            p += 1;
        }
        assert(distinct_seq(cases@));
        match Self::new_helper(cases, data, methods) {
            Option::Some(t) => Ok(t),
            Option::None => Err(BuildError::NoProductiveStrategy),
        }
    }

    /// Build the subtree for one key subset: a Default leaf for an empty
    /// subset, a Case leaf for a singleton, and otherwise the shallowest
    /// branch among the strategies' candidates, or nothing when no strategy
    /// is productive here.
    fn new_helper(cases: &Vec<u64>, data: &Vec<T>, methods: &Vec<Strategy>) -> (r: Option<
        Tree<T>,
    >)
        requires
            cases@.len() == data@.len(),
            distinct_seq(cases@),
            cases@.len() <= 0x8000_0000_0000_0000,
            cases@.len() < usize::MAX,
        ensures
            (r is Some) == (try_build::<T>(cases@, data@, methods@) is Some),
            r matches Some(t) ==> t@ == try_build(cases@, data@, methods@).unwrap(),
            r matches Some(t) ==> wf_m(t@),
            r matches Some(t) ==> depth_m(t@) <= cases@.len() + 1,
            r matches Some(t) ==> forall|i: int|
                0 <= i < cases@.len() ==> lookup_m(t@, #[trigger] cases@[i]) == Marker::Case(
                    cases@[i],
                    data@[i],
                ),
            r matches Some(t) ==> forall|i: int|
                0 <= i < methods@.len() && (#[trigger] try_method(
                    cases@,
                    data@,
                    methods@,
                    methods@[i],
                )) is Some ==> depth_m(t@) <= depth_m(
                    try_method(cases@, data@, methods@, methods@[i]).unwrap(),
                ),
            r matches Some(t) ==> leaves_from(t@, cases@, data@),
        decreases cases@.len(),
    {
        if cases.len() == 0 {
            return Some(Tree::Leaf(Marker::Default));
        }
        if cases.len() == 1 {
            proof {
                assert(is_input_pair(cases@, data@, cases@[0], data@[0]));
            }
            return Some(Tree::Leaf(Marker::Case(cases[0], data[0])));
        }
        let mut best: Option<Tree<T>> = None;
        let mut i: usize = 0;
        while i < methods.len()
            invariant
                cases@.len() == data@.len(),
                distinct_seq(cases@),
                cases@.len() <= 0x8000_0000_0000_0000,
                cases@.len() < usize::MAX,
                cases@.len() >= 2,
                i <= methods@.len(),
                try_from(cases@, data@, methods@, 0, Option::None) == try_from(
                    cases@,
                    data@,
                    methods@,
                    i as int,
                    opt_view(best),
                ),
                best matches Some(b) ==> wf_m(b@),
                best matches Some(b) ==> depth_m(b@) <= cases@.len() + 1,
                best matches Some(b) ==> forall|k: int|
                    0 <= k < cases@.len() ==> lookup_m(b@, #[trigger] cases@[k]) == Marker::Case(
                        cases@[k],
                        data@[k],
                    ),
                best matches Some(b) ==> forall|k: int|
                    0 <= k < i && (#[trigger] try_method(cases@, data@, methods@, methods@[k]))
                        is Some ==> depth_m(b@) <= depth_m(
                        try_method(cases@, data@, methods@, methods@[k]).unwrap(),
                    ),
                best is None ==> forall|k: int|
                    0 <= k < i ==> (#[trigger] try_method(cases@, data@, methods@, methods@[k]))
                        is None,
                best matches Some(b) ==> leaves_from(b@, cases@, data@),
            decreases methods@.len() - i,
        {
            let ghost old_best = best;
            let m = methods[i];
            let f = m.new(cases);
            let size = f.size();
            let ghost cand_m = try_method::<T>(cases@, data@, methods@, methods@[i as int]);
            if size > cases.len() as u64 {
                proof {
                    assert(cand_m is None);
                    assert(pick_best(opt_view(best), cand_m) == opt_view(best));
                }
            } else {
                let mut kids: Vec<Tree<T>> = Vec::new();
                let mut ok: bool = true;
                let mut slot: u64 = 0;
                while slot < size && ok
                    invariant
                        cases@.len() == data@.len(),
                        distinct_seq(cases@),
                        cases@.len() <= 0x8000_0000_0000_0000,
                        cases@.len() < usize::MAX,
                        cases@.len() >= 2,
                        f.wf(),
                        size == f.spec_size(),
                        1 <= size <= cases@.len(),
                        forall|k: int|
                            0 <= k < cases@.len() ==> (#[trigger] f.spec_hash(cases@[k])) is Some,
                        forall|k: int|
                            0 <= k < cases@.len() ==> ((#[trigger] f.spec_hash(cases@[k]))
                                matches Some(h) && h < size),
                        slot <= size,
                        ok ==> kids@.len() == slot,
                        ok ==> ((build_buckets::<T>(cases@, data@, methods@, f, 0) is Some) == (
                        build_buckets::<T>(cases@, data@, methods@, f, slot as int) is Some)),
                        ok ==> (build_buckets::<T>(cases@, data@, methods@, f, 0) matches Some(ch)
                            ==> ch == view_seq(kids@) + build_buckets::<T>(
                            cases@,
                            data@,
                            methods@,
                            f,
                            slot as int,
                        ).unwrap()),
                        !ok ==> build_buckets::<T>(cases@, data@, methods@, f, 0) is None,
                        ok ==> forall|q: int|
                            0 <= q < kids@.len() ==> wf_m(#[trigger] view_seq(kids@)[q]),
                        ok ==> forall|q: int|
                            0 <= q < kids@.len() ==> depth_m(#[trigger] view_seq(kids@)[q])
                                <= cases@.len(),
                        ok ==> forall|k: int|
                            0 <= k < cases@.len() ==> routed(
                                view_seq(kids@),
                                f,
                                #[trigger] cases@[k],
                                data@[k],
                                slot as int,
                            ),
                        ok ==> forall|q: int|
                            0 <= q < kids@.len() ==> leaves_from(
                                #[trigger] view_seq(kids@)[q],
                                cases@,
                                data@,
                            ),
                    decreases size - slot,
                {
                    let ghost bb_here = build_buckets::<T>(
                        cases@,
                        data@,
                        methods@,
                        f,
                        slot as int,
                    );
                    let mut sc: Vec<u64> = Vec::new();
                    let mut sd: Vec<T> = Vec::new();
                    let mut j: usize = 0;
                    while j < cases.len()
                        invariant
                            cases@.len() == data@.len(),
                            j <= cases@.len(),
                            f.wf(),
                            sc@ == sel_keys(cases@.take(j as int), f, slot),
                            sd@ == sel_vals(cases@.take(j as int), data@.take(j as int), f, slot),
                        decreases cases@.len() - j,
                    {
                        proof {
                            assert(cases@.take(j as int + 1).drop_last() =~= cases@.take(
                                j as int,
                            ));
                            assert(data@.take(j as int + 1).drop_last() =~= data@.take(j as int));
                            assert(cases@.take(j as int + 1).last() == cases@[j as int]);
                            assert(data@.take(j as int + 1)[j as int] == data@[j as int]);
                        }
                        match f.hash(cases[j]) {
                            Option::Some(h) => {
                                if h == slot {
                                    sc.push(cases[j]);
                                    sd.push(data[j]);
                                }
                            },
                            Option::None => {},
                        }
                        j += 1;
                    }
                    proof {
                        assert(cases@.take(cases@.len() as int) =~= cases@);
                        assert(data@.take(data@.len() as int) =~= data@);
                        lemma_sel(cases@, data@, f, slot);
                    }
                    if sc.len() == cases.len() {
                        ok = false;
                    } else {
                        match Self::new_helper(&sc, &sd, methods) {
                            Option::None => {
                                ok = false;
                            },
                            Option::Some(t) => {
                                proof {
                                    lemma_view_seq(kids@);
                                    lemma_view_seq(kids@.push(t));
                                    assert(kids@.push(t).drop_last() =~= kids@);
                                    assert(view_seq(kids@.push(t)) =~= view_seq(kids@).push(t@));
                                }
                                kids.push(t);
                                proof {
                                    let bb_next = build_buckets::<T>(
                                        cases@,
                                        data@,
                                        methods@,
                                        f,
                                        slot as int + 1,
                                    );
                                    assert(bb_here matches Some(ch) ==> ch == seq![t@]
                                        + bb_next.unwrap());
                                    let x = bb_next.unwrap();
                                    assert(view_seq(kids@.drop_last()) + (seq![t@] + x)
                                        =~= view_seq(kids@) + x);
                                    assert forall|k: int| 0 <= k < cases@.len() implies routed(
                                        view_seq(kids@),
                                        f,
                                        #[trigger] cases@[k],
                                        data@[k],
                                        slot as int + 1,
                                    ) by {
                                        match f.spec_hash(cases@[k]) {
                                            Option::Some(h) => {
                                                if (h as int) == slot as int {
                                                    let w = choose|w: int|
                                                        0 <= w < sel_keys(cases@, f, slot).len()
                                                            && sel_keys(cases@, f, slot)[w]
                                                            == cases@[k] && #[trigger] sel_vals(
                                                            cases@,
                                                            data@,
                                                            f,
                                                            slot,
                                                        )[w] == data@[k];
                                                    assert(lookup_m(t@, sc@[w]) == Marker::Case(
                                                        sc@[w],
                                                        sd@[w],
                                                    ));
                                                    assert(view_seq(kids@)[h as int] == t@);
                                                } else if (h as int) < slot as int {
                                                    assert(routed(
                                                        view_seq(kids@.drop_last()),
                                                        f,
                                                        cases@[k],
                                                        data@[k],
                                                        slot as int,
                                                    ));
                                                    assert(view_seq(kids@.drop_last())[h as int]
                                                        == view_seq(kids@)[h as int]);
                                                }
                                            },
                                            Option::None => {},
                                        }
                                    }
                                    assert forall|key: u64|
                                        ((#[trigger] lookup_m(t@, key)) matches Marker::Case(
                                            k2,
                                            v2,
                                        ) ==> is_input_pair(cases@, data@, k2, v2)) by {
                                        match lookup_m(t@, key) {
                                            Marker::Case(k2, v2) => {
                                                assert(is_input_pair(sc@, sd@, k2, v2));
                                                let w = choose|w: int|
                                                    0 <= w < sc@.len() && #[trigger] sc@[w] == k2
                                                        && sd@[w] == v2;
                                                assert(sel_keys(cases@, f, slot)[w] == k2
                                                    && sel_vals(cases@, data@, f, slot)[w] == v2);
                                            },
                                            Marker::Default => {},
                                        }
                                    }
                                    assert(leaves_from(t@, cases@, data@));
                                }
                            },
                        }
                    }
                    slot += 1;
                }
                if ok {
                    let ghost gkids = kids@;
                    proof {
                        assert(slot == size);
                        assert(build_buckets::<T>(cases@, data@, methods@, f, size as int)
                            == Option::Some(Seq::<TreeM<T>>::empty()));
                        assert(build_buckets::<T>(cases@, data@, methods@, f, 0) matches Some(ch)
                            ==> ch == view_seq(gkids)) by {
                            assert(view_seq(gkids) + Seq::<TreeM<T>>::empty() =~= view_seq(
                                gkids,
                            ));
                        }
                    }
                    let cand = Tree::Branch { children: kids, hash_fn: f };
                    proof {
                        assert(cand@ == (TreeM::Branch { children: view_seq(gkids), f }));
                        lemma_view_seq(gkids);
                        assert(cand_m == Option::Some(cand@));
                        assert(wf_m(cand@));
                        lemma_depth_seq_le(view_seq(gkids), cases@.len());
                        assert(depth_m(cand@) <= cases@.len() + 1);
                        assert forall|k: int|
                            0 <= k < cases@.len() implies lookup_m(cand@, #[trigger] cases@[k])
                            == Marker::Case(cases@[k], data@[k]) by {
                            let h = f.spec_hash(cases@[k]).unwrap();
                            assert(f.spec_hash(cases@[k]) == Option::Some(h));
                            assert((h as int) < size as int);
                            assert(routed(view_seq(gkids), f, cases@[k], data@[k], size as int));
                        }
                        lemma_depth_seq_ge(view_seq(gkids));
                        assert forall|key: u64|
                            ((#[trigger] lookup_m(cand@, key)) matches Marker::Case(
                                k2,
                                v2,
                            ) ==> is_input_pair(cases@, data@, k2, v2)) by {
                            match f.spec_hash(key) {
                                Option::Some(h) => {
                                    if (h as int) < view_seq(gkids).len() {
                                        assert(leaves_from(
                                            view_seq(gkids)[h as int],
                                            cases@,
                                            data@,
                                        ));
                                        assert(lookup_m(cand@, key) == lookup_m(
                                            view_seq(gkids)[h as int],
                                            key,
                                        ));
                                    }
                                },
                                Option::None => {},
                            }
                        }
                        assert(leaves_from(cand@, cases@, data@));
                    }
                    match &best {
                        Option::None => {
                            best = Some(cand);
                        },
                        Option::Some(b) => {
                            let db = b.depth();
                            let dc = cand.depth();
                            if db > dc {
                                best = Some(cand);
                            }
                        },
                    }
                    proof {
                        assert(opt_view(best) == pick_best(opt_view(old_best), cand_m));
                    }
                } else {
                    proof {
                        assert(cand_m is None);
                        assert(pick_best(opt_view(best), cand_m) == opt_view(best));
                    }
                }
            }
            proof {
                assert(try_from(cases@, data@, methods@, i as int, opt_view(old_best))
                    == try_from(
                    cases@,
                    data@,
                    methods@,
                    i as int + 1,
                    pick_best(opt_view(old_best), cand_m),
                ));
            }
            i += 1;
        }
        proof {
            assert(try_from(
                cases@,
                data@,
                methods@,
                methods@.len() as int,
                opt_view(best),
            ) == opt_view(best));
        }
        best
    }

    /// Walk the tree by the key: apply each branch's discriminator and follow
    /// the indexed child; where the key has no bucket or its bucket lies past
    /// the children array, the walk yields Default.  Terminates on every key,
    /// present or absent.
    pub fn lookup(&self, key: u64) -> (m: Marker<T>)
        requires
            wf_m(self@),
        ensures
            m == lookup_m(self@, key),
        decreases self@,
    {
        match self {
            Tree::Leaf(m) => match m {
                Marker::Case(k, v) => Marker::Case(*k, *v),
                Marker::Default => Marker::Default,
            },
            Tree::Branch { children, hash_fn } => {
                proof {
                    lemma_view_seq(children@);
                }
                match hash_fn.hash(key) {
                    Option::Some(h) => {
                        if h < children.len() as u64 {
                            proof {
                                assert(decreases_to!(self@ => view_seq(children@)[h as int]));
                                assert(view_seq(children@)[h as int] == children@[h as int]@);
                            }
                            children[h as usize].lookup(key)
                        } else {
                            Marker::Default
                        }
                    },
                    Option::None => Marker::Default,
                }
            },
        }
    }
}

} // verus!

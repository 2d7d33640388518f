use vstd::prelude::*;

verus! {

use crate::methods::Strategy;
use crate::methods::distinct_seq;
use crate::{Tree, TreeM, BuildError, Marker};
use crate::{try_build, try_method, lookup_m, depth_m, wf_m, leaves_from, is_input_pair};

/// Determinism: construction is a function of the keys, payloads and
/// strategies alone, so two trees built from identical inputs have identical
/// shapes — the same branch and leaf structure and the same discriminator
/// parameters.
pub proof fn lemma_build_deterministic<T>(
    r1: Result<Tree<T>, BuildError>,
    r2: Result<Tree<T>, BuildError>,
    cases: Seq<u64>,
    data: Seq<T>,
    methods: Seq<Strategy>,
)
    requires
        r1 matches Ok(t1) ==> t1@ == try_build(cases, data, methods).unwrap(),
        r2 matches Ok(t2) ==> t2@ == try_build(cases, data, methods).unwrap(),
        (r1 is Ok) <==> (distinct_seq(cases) && try_build(cases, data, methods) is Some),
        (r2 is Ok) <==> (distinct_seq(cases) && try_build(cases, data, methods) is Some),
        (r1 matches Err(BuildError::DuplicateCase)) <==> !distinct_seq(cases),
        (r2 matches Err(BuildError::DuplicateCase)) <==> !distinct_seq(cases),
    ensures
        (r1 is Ok) == (r2 is Ok),
        r1 matches Ok(t1) ==> (r2 matches Ok(t2) && t1@ == t2@),
        r1 matches Err(e1) ==> (r2 matches Err(e2) && e1 == e2),
{
    if r1 is Err && r2 is Err {
        let e1 = r1->Err_0;
        let e2 = r2->Err_0;
        if !distinct_seq(cases) {
            assert(e1 == BuildError::DuplicateCase && e2 == BuildError::DuplicateCase);
        } else {
            assert(e1 != BuildError::DuplicateCase && e2 != BuildError::DuplicateCase);
            assert(e1 == BuildError::NoProductiveStrategy) by {
                match e1 {
                    BuildError::DuplicateCase => assert(false),
                    BuildError::NoProductiveStrategy => {},
                }
            }
            assert(e2 == BuildError::NoProductiveStrategy) by {
                match e2 {
                    BuildError::DuplicateCase => assert(false),
                    BuildError::NoProductiveStrategy => {},
                }
            }
        }
    }
}

/// Depth minimality within the supplied strategy set: at the root — and,
/// since every subtree is itself built by the same rule on its own subset, at
/// any node — no available strategy yields a strictly shallower subtree than
/// the one the builder selected.
pub proof fn lemma_depth_minimal<T>(
    t: Tree<T>,
    cases: Seq<u64>,
    data: Seq<T>,
    methods: Seq<Strategy>,
    i: int,
)
    requires
        t@ == try_build(cases, data, methods).unwrap(),
        try_build(cases, data, methods) is Some,
        forall|k: int|
            0 <= k < methods.len() && (#[trigger] try_method(cases, data, methods, methods[k]))
                is Some ==> depth_m(t@) <= depth_m(
                try_method(cases, data, methods, methods[k]).unwrap(),
            ),
        0 <= i < methods.len(),
        try_method(cases, data, methods, methods[i]) is Some,
    ensures
        depth_m(t@) <= depth_m(try_method(cases, data, methods, methods[i]).unwrap()),
{
}

/// Closed dispatch: the walk is total — on a well-formed tree it assigns
/// every key, present in the input or not, some leaf marker, and a bucket
/// with no child of its own (a bucket index past the children array, or a key
/// below a bias) dispatches to Default rather than failing.
pub proof fn lemma_closed_dispatch<T>(t: TreeM<T>, key: u64)
    requires
        wf_m(t),
    ensures
        (lookup_m(t, key) matches Marker::Case(k, v)) || lookup_m(t, key) is Default,
    decreases t,
{
}

/// A key absent from the input dispatches to Default or to some other
/// entry's case leaf: the tree never fabricates a (key, payload) pair, so the
/// walk cannot pretend the absent key was matched.
pub proof fn lemma_absent_key<T>(t: TreeM<T>, cases: Seq<u64>, data: Seq<T>, key: u64)
    requires
        leaves_from(t, cases, data),
        forall|i: int| 0 <= i < cases.len() ==> #[trigger] cases[i] != key,
    ensures
        lookup_m(t, key) matches Marker::Case(k2, v2) ==> (k2 != key && is_input_pair(
            cases,
            data,
            k2,
            v2,
        )),
{
    match lookup_m(t, key) {
        Marker::Case(k2, v2) => {
            assert(is_input_pair(cases, data, k2, v2));
            let i = choose|i: int|
                0 <= i < cases.len() && #[trigger] cases[i] == k2 && data[i] == v2;
            assert(cases[i] != key);
        },
        Marker::Default => {},
    }
}

} // verus!

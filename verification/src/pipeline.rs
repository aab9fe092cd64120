use vstd::prelude::*;

use crate::collect::{
    Insert, OrderedList, SortedSet, lemma_sorted_insert_props, lemma_sorted_unique_same_set,
    sorted_insert, sorted_unique, views_of,
};
use crate::extract::{ExtractError, extract_guid, spec_extract};
use crate::guid::GUID;
use crate::manifest::spec_manifest;

verus! {

/// Every metadata file text in `cs` yields an identifier.
pub open spec fn all_extract_ok(cs: Seq<Seq<u8>>) -> bool {
    forall|i: int| 0 <= i < cs.len() ==> spec_extract(#[trigger] cs[i]) is Ok
}

/// The identifiers extracted from the file texts `cs`, in order.
pub open spec fn extracted_guids(cs: Seq<Seq<u8>>) -> Seq<Seq<u8>> {
    cs.map_values(
        |c: Seq<u8>|
            match spec_extract(c) {
                Ok(g) => g,
                Err(_) => Seq::<u8>::empty(),
            },
    )
}

/// The collection contents after feeding the identifiers `gs`, in order,
/// into a collection of policy `C` that held `init`.
pub open spec fn gathered<C: Insert>(init: Seq<Seq<u8>>, gs: Seq<Seq<u8>>) -> Seq<Seq<u8>>
    decreases gs.len(),
{
    if gs.len() == 0 {
        init
    } else {
        gathered::<C>(C::inserted(init, gs[0]), gs.drop_first())
    }
}

proof fn lemma_gathered_push<C: Insert>(init: Seq<Seq<u8>>, gs: Seq<Seq<u8>>, g: Seq<u8>)
    ensures
        gathered::<C>(init, gs.push(g)) == C::inserted(gathered::<C>(init, gs), g),
    decreases gs.len(),
{
    if gs.len() == 0 {
        assert(gs.push(g)[0] == g);
        assert(gs.push(g).drop_first() =~= Seq::<Seq<u8>>::empty());
        assert(gathered::<C>(C::inserted(init, g), Seq::<Seq<u8>>::empty()) == C::inserted(
            init,
            g,
        ));
    } else {
        assert(gs.push(g)[0] == gs[0]);
        assert(gs.push(g).drop_first() =~= gs.drop_first().push(g));
        lemma_gathered_push::<C>(C::inserted(init, gs[0]), gs.drop_first(), g);
    }
}

/// Feeding identifiers into the order-preserving policy appends them.
pub proof fn lemma_gathered_ordered(init: Seq<Seq<u8>>, gs: Seq<Seq<u8>>)
    ensures
        gathered::<OrderedList>(init, gs) == init + gs,
    decreases gs.len(),
{
    if gs.len() == 0 {
        assert(init + gs =~= init);
    } else {
        lemma_gathered_ordered(init.push(gs[0]), gs.drop_first());
        assert(init.push(gs[0]) + gs.drop_first() =~= init + gs);
    }
}

/// Feeding identifiers into the sorted policy yields an ascending,
/// duplicate-free sequence holding exactly the values fed (and those
/// already held).
pub proof fn lemma_gathered_sorted(init: Seq<Seq<u8>>, gs: Seq<Seq<u8>>)
    requires
        sorted_unique(init),
    ensures
        sorted_unique(gathered::<SortedSet>(init, gs)),
        gathered::<SortedSet>(init, gs).to_set() == init.to_set().union(gs.to_set()),
    decreases gs.len(),
{
    if gs.len() == 0 {
        assert forall|x: Seq<u8>| !gs.to_set().contains(x) by {
            if gs.contains(x) {
                let i = choose|i: int| 0 <= i < gs.len() && gs[i] == x;
            }
        }
        assert(init.to_set().union(gs.to_set()) =~= init.to_set());
    } else {
        let t = gs.drop_first();
        lemma_sorted_insert_props(init, gs[0]);
        lemma_gathered_sorted(sorted_insert(init, gs[0]), t);
        assert forall|x: Seq<u8>|
            gs.to_set().contains(x) <==> (x == gs[0] || t.to_set().contains(x)) by {
            if gs.to_set().contains(x) {
                let i = choose|i: int| 0 <= i < gs.len() && gs[i] == x;
                if i > 0 {
                    assert(t[i - 1] == x);
                    assert(t.contains(x));
                }
            }
            if t.to_set().contains(x) {
                let i = choose|i: int| 0 <= i < t.len() && t[i] == x;
                assert(gs[i + 1] == x);
                assert(gs.contains(x));
            }
            if x == gs[0] {
                assert(gs.contains(x));
            }
        }
        assert(gathered::<SortedSet>(init, gs).to_set() =~= init.to_set().union(gs.to_set()));
    }
}

/// Feeds the identifier of each metadata file text, in traversal order, into
/// the given collection. The first file whose extraction fails aborts the
/// whole gathering with that failure, exactly as extraction states it.
pub fn gather_guid<C: Insert>(contents: &Vec<Vec<u8>>, col: &mut C) -> (r: Result<
    (),
    ExtractError,
>)
    ensures
        match r {
            Ok(_) => all_extract_ok(contents.deep_view()) && final(col).contents()
                == gathered::<C>(old(col).contents(), extracted_guids(contents.deep_view())),
            Err(e) => exists|i: int|
                0 <= i < contents.deep_view().len() && #[trigger] spec_extract(
                    contents.deep_view()[i],
                ) == Err::<Seq<u8>, ExtractError>(e) && (forall|k: int|
                    0 <= k < i ==> spec_extract(#[trigger] contents.deep_view()[k]) is Ok),
        },
{
    let ghost cs = contents.deep_view();
    proof {
        assert(cs.take(0) =~= Seq::<Seq<u8>>::empty());
        assert(extracted_guids(Seq::<Seq<u8>>::empty()) =~= Seq::<Seq<u8>>::empty());
    }
    let n = contents.len();
    let mut i: usize = 0;
    while i < n
        invariant
            0 <= i <= n,
            n == contents@.len(),
            cs == contents.deep_view(),
            cs.len() == n,
            forall|k: int| 0 <= k < i ==> spec_extract(#[trigger] cs[k]) is Ok,
            col.contents() == gathered::<C>(
                old(col).contents(),
                extracted_guids(cs.take(i as int)),
            ),
        decreases n - i,
    {
        proof {
            assert(cs[i as int] =~= contents@[i as int]@);
        }
        match extract_guid(contents[i].as_slice()) {
            Ok(g) => {
                let ghost gv = g@;
                col.insert(g);
                proof {
                    lemma_gathered_push::<C>(
                        old(col).contents(),
                        extracted_guids(cs.take(i as int)),
                        gv,
                    );
                    assert(extracted_guids(cs.take(i as int)).push(gv) =~= extracted_guids(
                        cs.take(i + 1),
                    ));
                }
                i += 1;
            },
            Err(e) => {
                proof {
                    assert(spec_extract(cs[i as int]) == Err::<Seq<u8>, ExtractError>(e));
                }
                return Err(e);
            },
        }
    }
    proof {
        assert(cs.take(n as int) =~= cs);
    }
    Ok(())
}

/// Runs the whole gathering over the file texts of one traversal, under the
/// selected collection policy, and hands out the final identifier sequence:
/// ascending and duplicate-free for the sorted policy, the exact discovery
/// sequence - duplicates included - otherwise. The first file whose
/// extraction fails aborts the run with that failure instead.
pub fn collect_guids(contents: &Vec<Vec<u8>>, sorted: bool) -> (r: Result<Vec<GUID>, ExtractError>)
    ensures
        match r {
            Ok(v) => all_extract_ok(contents.deep_view()) && (if sorted {
                sorted_unique(views_of(v@)) && views_of(v@).to_set() == extracted_guids(
                    contents.deep_view(),
                ).to_set()
            } else {
                views_of(v@) == extracted_guids(contents.deep_view())
            }),
            Err(e) => exists|i: int|
                0 <= i < contents.deep_view().len() && #[trigger] spec_extract(
                    contents.deep_view()[i],
                ) == Err::<Seq<u8>, ExtractError>(e) && (forall|k: int|
                    0 <= k < i ==> spec_extract(#[trigger] contents.deep_view()[k]) is Ok),
        },
{
    let ghost cs = contents.deep_view();
    if sorted {
        let mut col = SortedSet::new();
        match gather_guid(contents, &mut col) {
            Ok(_) => {
                proof {
                    lemma_gathered_sorted(Seq::<Seq<u8>>::empty(), extracted_guids(cs));
                    assert(Seq::<Seq<u8>>::empty().to_set().union(extracted_guids(cs).to_set())
                        =~= extracted_guids(cs).to_set());
                }
                Ok(col.into_vec())
            },
            Err(e) => Err(e),
        }
    } else {
        let mut col = OrderedList::new();
        match gather_guid(contents, &mut col) {
            Ok(_) => {
                proof {
                    lemma_gathered_ordered(Seq::<Seq<u8>>::empty(), extracted_guids(cs));
                    assert(Seq::<Seq<u8>>::empty() + extracted_guids(cs) =~= extracted_guids(cs));
                }
                Ok(col.into_vec())
            },
            Err(e) => Err(e),
        }
    }
}

/// Law: one tree, one sorted manifest. Two ascending duplicate-free
/// identifier sequences holding the same values - as two runs of the sorted
/// policy over an unchanged tree yield - render to byte-identical manifest
/// text under the same display name and URL.
pub proof fn lemma_sorted_manifest_idempotent(
    name: Seq<u8>,
    url: Option<Seq<u8>>,
    v1: Seq<Seq<u8>>,
    v2: Seq<Seq<u8>>,
)
    requires
        sorted_unique(v1),
        sorted_unique(v2),
        v1.to_set() == v2.to_set(),
    ensures
        spec_manifest(name, url, v1) == spec_manifest(name, url, v2),
{
    lemma_sorted_unique_same_set(v1, v2);
}

} // verus!

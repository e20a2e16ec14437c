//! The round-trip law: delete every path of the match list from the tree,
//! and the walk of what is left finds nothing — provided the match list
//! covered every directory carrying the target name. Pruning can hide a
//! match behind an already-matched sibling, and such a hidden match
//! survives the deletions; the covering premise leaves exactly those trees
//! out.

use vstd::prelude::*;

use crate::walker::{
    has_match, lemma_walk_elems_extend_prefix, lemma_walk_empty_iff_no_match, walk_matches,
    DirTree,
};

verus! {

/// The chain of names `rel` descends through existing directories of the
/// forest `kids`: each name is carried by some child of the level before it.
pub open spec fn chain_exists(kids: Seq<DirTree>, rel: Seq<Seq<char>>) -> bool
    decreases kids,
{
    if kids.len() == 0 || rel.len() == 0 {
        false
    } else {
        (kids[0].name@ == rel[0] && (rel.len() == 1 || chain_exists(
            kids[0].subdirs@,
            rel.drop_first(),
        ))) || chain_exists(kids.drop_first(), rel)
    }
}

/// The paths of `list` that enter a child named `name`, relative to that
/// child.
pub open spec fn tails_under(list: Set<Seq<Seq<char>>>, name: Seq<char>) -> Set<Seq<Seq<char>>> {
    Set::new(
        |r: Seq<Seq<char>>|
            exists|l: Seq<Seq<char>>|
                #[trigger] list.contains(l) && l.len() > 1 && l[0] == name && r == l.drop_first(),
    )
}

/// `after` is the forest `before` with the directory at every path of
/// `list` deleted: a child whose one-name path is listed is gone with its
/// whole subtree, and every other child remains, its own subtree thinned
/// by the listed paths that enter it.
pub open spec fn forest_minus(
    before: Seq<DirTree>,
    list: Set<Seq<Seq<char>>>,
    after: Seq<DirTree>,
) -> bool
    decreases before,
{
    if before.len() == 0 {
        after.len() == 0
    } else if list.contains(seq![before[0].name@]) {
        forest_minus(before.drop_first(), list, after)
    } else {
        after.len() > 0 && after[0].name@ == before[0].name@ && forest_minus(
            before[0].subdirs@,
            tails_under(list, before[0].name@),
            after[0].subdirs@,
        ) && forest_minus(before.drop_first(), list, after.drop_first())
    }
}

/// `list` covers every directory of `kids` named `target`: each chain that
/// ends on the target name passes through a listed path.
pub open spec fn covers(kids: Seq<DirTree>, list: Set<Seq<Seq<char>>>, target: Seq<char>) -> bool {
    forall|rel: Seq<Seq<char>>|
        #[trigger] chain_exists(kids, rel) && rel.len() > 0 && rel.last() == target ==> exists|
            l: Seq<Seq<char>>,
        |
            #[trigger] list.contains(l) && l.is_prefix_of(rel)
}

/// A forest holding a directory named `target` holds a chain of names that
/// descends to one.
pub proof fn lemma_has_match_gives_chain(kids: Seq<DirTree>, target: Seq<char>) -> (rel: Seq<
    Seq<char>,
>)
    requires
        has_match(kids, target),
    ensures
        chain_exists(kids, rel),
        rel.len() > 0,
        rel.last() == target,
    decreases kids,
{
    if kids[0].name@ == target {
        let rel = seq![target];
        rel
    } else if has_match(kids[0].subdirs@, target) {
        let sub = lemma_has_match_gives_chain(kids[0].subdirs@, target);
        let rel = seq![kids[0].name@] + sub;
        assert(rel.drop_first() =~= sub);
        assert(rel.last() == sub.last());
        rel
    } else {
        lemma_has_match_gives_chain(kids.drop_first(), target)
    }
}

/// A chain that still descends through the thinned forest descended through
/// the original one, and no deleted path lies on it: deletion only ever
/// takes chains away.
pub proof fn lemma_chain_survives(
    before: Seq<DirTree>,
    list: Set<Seq<Seq<char>>>,
    after: Seq<DirTree>,
    rel: Seq<Seq<char>>,
)
    requires
        forest_minus(before, list, after),
        chain_exists(after, rel),
        forall|l: Seq<Seq<char>>| #[trigger] list.contains(l) ==> l.len() > 0,
    ensures
        chain_exists(before, rel),
        forall|l: Seq<Seq<char>>| #[trigger] list.contains(l) ==> !l.is_prefix_of(rel),
    decreases before,
{
    if before.len() == 0 {
        assert(false);
    } else if list.contains(seq![before[0].name@]) {
        lemma_chain_survives(before.drop_first(), list, after, rel);
    } else {
        let n0 = before[0].name@;
        let tails = tails_under(list, n0);
        if after[0].name@ == rel[0] && (rel.len() == 1 || chain_exists(
            after[0].subdirs@,
            rel.drop_first(),
        )) {
            if rel.len() == 1 {
                assert(chain_exists(before, rel));
                assert forall|l: Seq<Seq<char>>|
                    #[trigger] list.contains(l) implies !l.is_prefix_of(rel) by {
                    if l.is_prefix_of(rel) {
                        assert(l.len() == 1);
                        assert(l =~= seq![n0]);
                        assert(false);
                    }
                }
            } else {
                assert forall|l2: Seq<Seq<char>>| #[trigger] tails.contains(l2) implies l2.len()
                    > 0 by {
                    let l = choose|l: Seq<Seq<char>>|
                        #[trigger] list.contains(l) && l.len() > 1 && l[0] == n0 && l2
                            == l.drop_first();
                    assert(l2.len() == l.len() - 1);
                }
                lemma_chain_survives(
                    before[0].subdirs@,
                    tails,
                    after[0].subdirs@,
                    rel.drop_first(),
                );
                assert(chain_exists(before, rel));
                assert forall|l: Seq<Seq<char>>|
                    #[trigger] list.contains(l) implies !l.is_prefix_of(rel) by {
                    if l.is_prefix_of(rel) {
                        if l.len() == 1 {
                            assert(l =~= seq![n0]);
                            assert(false);
                        } else {
                            assert(l[0] == rel[0]);
                            assert(tails.contains(l.drop_first()));
                            assert(l.drop_first().is_prefix_of(rel.drop_first())) by {
                                assert(l.drop_first() =~= rel.drop_first().subrange(
                                    0,
                                    l.len() - 1,
                                ));
                            }
                            assert(false);
                        }
                    }
                }
            }
        } else {
            assert(chain_exists(after.drop_first(), rel));
            lemma_chain_survives(before.drop_first(), list, after.drop_first(), rel);
        }
    }
}

/// Round trip: walk a tree, delete the directory at every path of the match
/// list, and walk what is left — nothing is found, provided the match list
/// covered every directory named `target`. (Pruning can leave a match out
/// of the list: a tree whose root has the children `[target, c]` with a
/// second `target` inside `c` lists only the first, and deleting that one
/// leaves the second for a later walk to find.)
pub proof fn lemma_round_trip_removal(
    prefix: Seq<Seq<char>>,
    before: Seq<DirTree>,
    target: Seq<char>,
    after: Seq<DirTree>,
)
    requires
        forest_minus(before, walk_matches(Seq::<Seq<char>>::empty(), before, target).to_set(), after),
        covers(before, walk_matches(Seq::<Seq<char>>::empty(), before, target).to_set(), target),
    ensures
        walk_matches(prefix, after, target) == Seq::<Seq<Seq<char>>>::empty(),
{
    let walk0 = walk_matches(Seq::<Seq<char>>::empty(), before, target);
    let list = walk0.to_set();
    if has_match(after, target) {
        let rel = lemma_has_match_gives_chain(after, target);
        lemma_walk_elems_extend_prefix(Seq::<Seq<char>>::empty(), before, target);
        assert forall|l: Seq<Seq<char>>| #[trigger] list.contains(l) implies l.len() > 0 by {
            assert(walk0.contains(l));
            let k = choose|k: int| 0 <= k < walk0.len() && walk0[k] == l;
            assert(walk0[k].len() > 0);
        }
        lemma_chain_survives(before, list, after, rel);
        assert(exists|l: Seq<Seq<char>>| #[trigger] list.contains(l) && l.is_prefix_of(rel));
        let l = choose|l: Seq<Seq<char>>| #[trigger] list.contains(l) && l.is_prefix_of(rel);
        assert(false);
    }
    lemma_walk_empty_iff_no_match(prefix, after, target);
    assert(walk_matches(prefix, after, target) =~= Seq::<Seq<Seq<char>>>::empty());
}

} // verus!

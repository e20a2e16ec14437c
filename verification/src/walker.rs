//! Directory-tree walker: collects the paths of subdirectories whose name
//! equals a target name, with a first-match-per-level pruning rule.
//!
//! A directory tree is modelled as [`DirTree`]; a path is the sequence of
//! directory names from the search root down to a directory. The walk scans
//! each directory's children in order: a child whose name equals the target
//! is recorded and ends the scan of that level (its own children and its
//! remaining siblings are never inspected); any other child is descended
//! into before the scan moves on.

use vstd::prelude::*;

verus! {

/// A directory with its subdirectories. Entries that are not directories
/// play no part in the search and are not represented.
pub struct DirTree {
    /// Base name of this directory.
    pub name: String,
    /// Subdirectories, in enumeration order.
    pub subdirs: Vec<DirTree>,
}

/// The match list produced by scanning `kids` (the children of a directory
/// whose path is `prefix`) for directories named `target`.
///
/// The first child whose name equals `target` is the only match taken from
/// this level: it ends the scan, so neither its own subtree nor its later
/// siblings contribute. Children scanned before it contribute the matches
/// of their own subtrees, in order.
pub open spec fn walk_matches(
    prefix: Seq<Seq<char>>,
    kids: Seq<DirTree>,
    target: Seq<char>,
) -> Seq<Seq<Seq<char>>>
    decreases kids,
{
    if kids.len() == 0 {
        Seq::empty()
    } else if kids[0].name@ == target {
        seq![prefix.push(kids[0].name@)]
    } else {
        walk_matches(prefix.push(kids[0].name@), kids[0].subdirs@, target)
            + walk_matches(prefix, kids.drop_first(), target)
    }
}

/// Walk the subtree under `dir`, whose own path is `path`, and return the
/// match list for directories named `target`, exactly as `walk_matches`
/// describes it.
pub fn walk_dir(path: &Vec<String>, dir: &DirTree, target: &String) -> (r: Vec<Vec<String>>)
    ensures
        r.deep_view() == walk_matches(path.deep_view(), dir.subdirs@, target@),
    decreases *dir,
{
    let ghost all_kids = dir.subdirs@;
    let ghost pre = path.deep_view();
    let mut found: Vec<Vec<String>> = Vec::new();
    let mut i: usize = 0;
    proof {
        assert(all_kids.skip(0) =~= all_kids);
        assert(found.deep_view() =~= Seq::<Seq<Seq<char>>>::empty());
    }
    while i < dir.subdirs.len()
        invariant
            i <= all_kids.len(),
            all_kids == dir.subdirs@,
            pre == path.deep_view(),
            walk_matches(pre, all_kids, target@) == found.deep_view()
                + walk_matches(pre, all_kids.skip(i as int), target@),
        decreases all_kids.len() - i,
    {
        let child = &dir.subdirs[i];
        proof {
            assert(all_kids.skip(i as int)[0] == all_kids[i as int]);
        }
        let mut p = clone_path(path);
        p.push(child.name.clone());
        proof {
            assert(p.deep_view() =~= pre.push(child.name@));
        }
        if child.name == *target {
            let ghost sofar = found.deep_view();
            found.push(p);
            proof {
                assert(found.deep_view() =~= sofar + walk_matches(pre, all_kids.skip(i as int), target@));
            }
            return found;
        }
        let ghost sofar = found.deep_view();
        let mut sub = walk_dir(&p, child, target);
        let ghost sub_matches = sub.deep_view();
        found.append(&mut sub);
        proof {
            assert(found.deep_view() =~= sofar + sub_matches);
            assert(all_kids.skip(i as int).drop_first() =~= all_kids.skip(i + 1));
            assert(found.deep_view() + walk_matches(pre, all_kids.skip(i + 1), target@)
                =~= sofar + walk_matches(pre, all_kids.skip(i as int), target@));
        }
        i = i + 1;
    }
    proof {
        assert(all_kids.skip(i as int) =~= Seq::<DirTree>::empty());
        assert(found.deep_view() + Seq::<Seq<Seq<char>>>::empty() =~= found.deep_view());
    }
    found
}

/// Idempotence: walking the same unmodified tree twice, with the same
/// target, yields the same match list.
pub proof fn lemma_walk_deterministic(
    prefix: Seq<Seq<char>>,
    kids: Seq<DirTree>,
    target: Seq<char>,
    r1: Seq<Seq<Seq<char>>>,
    r2: Seq<Seq<Seq<char>>>,
)
    requires
        r1 == walk_matches(prefix, kids, target),
        r2 == walk_matches(prefix, kids, target),
    ensures
        r1 == r2,
{
}

/// Pruning, sharpest form: when a directory's first child matches, that
/// child's path is the whole match list for the directory — whatever its
/// own subtree and the remaining siblings contain.
pub proof fn lemma_first_child_match(prefix: Seq<Seq<char>>, kids: Seq<DirTree>, target: Seq<char>)
    requires
        kids.len() > 0,
        kids[0].name@ == target,
    ensures
        walk_matches(prefix, kids, target) == seq![prefix.push(target)],
{
}

/// Pruning: once the scan of a level reaches a child that matches, the
/// children after it might as well not exist — the walk of the level equals
/// the walk of the level cut off just past the match — and the match itself
/// is the last entry of the level's match list.
pub proof fn lemma_prune_stops_level(
    prefix: Seq<Seq<char>>,
    kids: Seq<DirTree>,
    target: Seq<char>,
    i: int,
)
    requires
        0 <= i < kids.len(),
        kids[i].name@ == target,
        forall|j: int| 0 <= j < i ==> (#[trigger] kids[j]).name@ != target,
    ensures
        walk_matches(prefix, kids, target) == walk_matches(prefix, kids.take(i + 1), target),
        walk_matches(prefix, kids, target).len() > 0,
        walk_matches(prefix, kids, target).last() == prefix.push(target),
    decreases i,
{
    if i == 0 {
        assert(kids.take(1)[0] == kids[0]);
        assert(walk_matches(prefix, kids.take(1), target) =~= seq![prefix.push(target)]);
    } else {
        let rest = kids.drop_first();
        assert(forall|j: int| 0 <= j < i - 1 ==> (#[trigger] rest[j]).name@ != target);
        lemma_prune_stops_level(prefix, rest, target, i - 1);
        assert(kids.take(i + 1)[0] == kids[0]);
        assert(kids.take(i + 1).drop_first() =~= rest.take(i));
    }
}

/// Whether some directory anywhere in the forest `kids` is named `target`.
pub open spec fn has_match(kids: Seq<DirTree>, target: Seq<char>) -> bool
    decreases kids,
{
    if kids.len() == 0 {
        false
    } else {
        kids[0].name@ == target || has_match(kids[0].subdirs@, target) || has_match(
            kids.drop_first(),
            target,
        )
    }
}

/// The walk comes back empty exactly when no directory in the tree is named
/// `target`: pruning can hide matches from the list, but never invent one,
/// and never hides the existence of every match.
pub proof fn lemma_walk_empty_iff_no_match(
    prefix: Seq<Seq<char>>,
    kids: Seq<DirTree>,
    target: Seq<char>,
)
    ensures
        walk_matches(prefix, kids, target).len() == 0 <==> !has_match(kids, target),
    decreases kids,
{
    if kids.len() == 0 {
    } else if kids[0].name@ == target {
    } else {
        lemma_walk_empty_iff_no_match(prefix.push(kids[0].name@), kids[0].subdirs@, target);
        lemma_walk_empty_iff_no_match(prefix, kids.drop_first(), target);
    }
}

/// The chain of names `rel` leads the walk through the level `kids` to a
/// match for `target`. The scan of the level looks at its children in
/// order: a first child named `target` ends the level, and only the
/// one-name chain to that child survives; any other first child lets the
/// chain either continue down into it or step over it to the later
/// siblings.
pub open spec fn leads_to_match(kids: Seq<DirTree>, rel: Seq<Seq<char>>, target: Seq<char>) -> bool
    decreases kids,
{
    if kids.len() == 0 || rel.len() == 0 {
        false
    } else if kids[0].name@ == target {
        rel == seq![target]
    } else {
        (kids[0].name@ == rel[0] && rel.len() > 1 && leads_to_match(
            kids[0].subdirs@,
            rel.drop_first(),
            target,
        )) || leads_to_match(kids.drop_first(), rel, target)
    }
}

/// A chain the walk follows to a match names `target` at its end and
/// nowhere before it: the walk never descends into a matched directory.
pub proof fn lemma_chain_shape(kids: Seq<DirTree>, rel: Seq<Seq<char>>, target: Seq<char>)
    requires
        leads_to_match(kids, rel, target),
    ensures
        rel.len() > 0,
        rel.last() == target,
        forall|j: int| 0 <= j < rel.len() - 1 ==> rel[j] != target,
    decreases kids,
{
    if kids[0].name@ == target {
    } else if kids[0].name@ == rel[0] && rel.len() > 1 && leads_to_match(
        kids[0].subdirs@,
        rel.drop_first(),
        target,
    ) {
        lemma_chain_shape(kids[0].subdirs@, rel.drop_first(), target);
        assert(forall|j: int|
            1 <= j < rel.len() - 1 ==> rel[j] == rel.drop_first()[j - 1] && rel[j] != target);
    } else {
        lemma_chain_shape(kids.drop_first(), rel, target);
    }
}

/// Every entry of a level's match list extends the level's own path by at
/// least one name.
pub proof fn lemma_walk_elems_extend_prefix(
    prefix: Seq<Seq<char>>,
    kids: Seq<DirTree>,
    target: Seq<char>,
)
    ensures
        forall|k: int|
            0 <= k < walk_matches(prefix, kids, target).len() ==> {
                let elem = #[trigger] walk_matches(prefix, kids, target)[k];
                elem.len() > prefix.len() && elem.take(prefix.len() as int) == prefix
            },
    decreases kids,
{
    if kids.len() == 0 {
    } else if kids[0].name@ == target {
        assert(prefix.push(kids[0].name@).take(prefix.len() as int) =~= prefix);
    } else {
        let sub = walk_matches(prefix.push(kids[0].name@), kids[0].subdirs@, target);
        let rest = walk_matches(prefix, kids.drop_first(), target);
        lemma_walk_elems_extend_prefix(prefix.push(kids[0].name@), kids[0].subdirs@, target);
        lemma_walk_elems_extend_prefix(prefix, kids.drop_first(), target);
        assert forall|k: int| 0 <= k < sub.len() implies sub[k].len() > prefix.len() && sub[k].take(
            prefix.len() as int,
        ) == prefix by {
            assert(sub[k].take(prefix.len() as int + 1) == prefix.push(kids[0].name@));
            assert(sub[k].take(prefix.len() as int + 1).take(prefix.len() as int) =~= sub[k].take(
                prefix.len() as int,
            ));
            assert(prefix.push(kids[0].name@).take(prefix.len() as int) =~= prefix);
        }
        assert(forall|k: int|
            0 <= k < walk_matches(prefix, kids, target).len() ==> walk_matches(
                prefix,
                kids,
                target,
            )[k] == if k < sub.len() {
                sub[k]
            } else {
                rest[k - sub.len()]
            });
    }
}

/// Membership: the match list for the level `kids` under `prefix` holds
/// the path `prefix + rel` exactly when the chain of names `rel` leads the
/// walk to a match — so the list holds every directory named `target` that
/// the scans on its own branch reach, and no other.
pub proof fn lemma_walk_membership(
    prefix: Seq<Seq<char>>,
    kids: Seq<DirTree>,
    target: Seq<char>,
    rel: Seq<Seq<char>>,
)
    ensures
        walk_matches(prefix, kids, target).contains(prefix + rel) <==> leads_to_match(
            kids,
            rel,
            target,
        ),
    decreases kids,
{
    let walk = walk_matches(prefix, kids, target);
    if kids.len() == 0 {
    } else if kids[0].name@ == target {
        if rel == seq![target] {
            assert(prefix + rel =~= prefix.push(target));
            assert(walk[0] == prefix + rel);
        } else if walk.contains(prefix + rel) {
            let k = choose|k: int| 0 <= k < walk.len() && walk[k] == prefix + rel;
            assert(k == 0);
            assert(prefix + rel == prefix.push(target));
            assert(rel =~= (prefix + rel).skip(prefix.len() as int));
            assert(seq![target] =~= prefix.push(target).skip(prefix.len() as int));
            assert(false);
        }
    } else {
        let n0 = kids[0].name@;
        let rest = kids.drop_first();
        let sub = walk_matches(prefix.push(n0), kids[0].subdirs@, target);
        let wrest = walk_matches(prefix, rest, target);
        assert(walk == sub + wrest);
        lemma_walk_membership(prefix, rest, target, rel);
        if rel.len() > 1 {
            lemma_walk_membership(prefix.push(n0), kids[0].subdirs@, target, rel.drop_first());
        }
        if rel.len() > 0 && rel[0] == n0 {
            assert(prefix + rel =~= prefix.push(n0) + rel.drop_first());
        }

        if walk.contains(prefix + rel) {
            let k = choose|k: int| 0 <= k < walk.len() && walk[k] == prefix + rel;
            if k < sub.len() {
                assert(sub[k] == prefix + rel);
                lemma_walk_elems_extend_prefix(prefix.push(n0), kids[0].subdirs@, target);
                assert(sub[k].len() > prefix.len() + 1);
                assert(rel.len() > 1);
                assert(sub[k].take(prefix.len() as int + 1) == prefix.push(n0));
                assert((prefix + rel).take(prefix.len() as int + 1)[prefix.len() as int] == rel[0]);
                assert(prefix.push(n0)[prefix.len() as int] == n0);
                assert(rel[0] == n0);
                assert(sub[k] == prefix.push(n0) + rel.drop_first());
                assert(sub.contains(prefix.push(n0) + rel.drop_first()));
                assert(leads_to_match(kids, rel, target));
            } else {
                assert(walk[k] == wrest[k - sub.len()]);
                assert(wrest.contains(prefix + rel));
                assert(leads_to_match(kids, rel, target));
            }
        }

        if leads_to_match(kids, rel, target) {
            if kids[0].name@ == rel[0] && rel.len() > 1 && leads_to_match(
                kids[0].subdirs@,
                rel.drop_first(),
                target,
            ) {
                assert(sub.contains(prefix.push(n0) + rel.drop_first()));
                let k = choose|k: int|
                    0 <= k < sub.len() && sub[k] == prefix.push(n0) + rel.drop_first();
                assert(walk[k] == prefix + rel);
                assert(walk.contains(prefix + rel));
            } else {
                assert(leads_to_match(rest, rel, target));
                assert(wrest.contains(prefix + rel));
                let k = choose|k: int| 0 <= k < wrest.len() && wrest[k] == prefix + rel;
                assert(walk[sub.len() + k] == prefix + rel);
                assert(walk.contains(prefix + rel));
            }
        }
    }
}

/// Copy a path so that a new component can be pushed onto the copy.
fn clone_path(path: &Vec<String>) -> (r: Vec<String>)
    ensures
        r.deep_view() == path.deep_view(),
{
    let mut r: Vec<String> = Vec::new();
    let mut i: usize = 0;
    while i < path.len()
        invariant
            i <= path@.len(),
            r@.len() == i,
            forall|j: int| 0 <= j < i ==> r@[j]@ == path@[j]@,
        decreases path@.len() - i,
    {
        r.push(path[i].clone());
        i = i + 1;
    }
    proof {
        assert(r.deep_view() =~= path.deep_view());
    }
    r
}

} // verus!


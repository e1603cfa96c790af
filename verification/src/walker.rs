//! The types whose sprites are extracted.

use crate::objtree::ObjectTree;
use crate::text::{has_prefix, starts_with};
use vstd::prelude::*;

verus! {

/// Whether types with that path have sprites worth extracting: objects, turfs and mobs, but for
/// those that only serve mapping or have no look of their own.
pub open spec fn extractable(path: Seq<char>) -> bool {
    &&& starts_with(path, "/obj/"@) || starts_with(path, "/turf/"@) || starts_with(path, "/mob/"@)
    &&& !starts_with(path, "/obj/effect/abstract"@)
    &&& !starts_with(path, "/obj/effect/landmark"@)
    &&& !starts_with(path, "/obj/effect/spawner"@)
    &&& !starts_with(path, "/obj/effect/mapping_helpers"@)
    &&& !starts_with(path, "/obj/docking_port"@)
    &&& !starts_with(path, "/mob/dead"@)
    &&& !starts_with(path, "/mob/camera"@)
}

/// Whether a type is extracted: its path is, and begins with the filter where there is one.
pub open spec fn wanted(path: Seq<char>, filter: Option<Seq<char>>) -> bool {
    extractable(path) && match filter {
        Some(f) => starts_with(path, f),
        None => true,
    }
}

fn is_extractable(path: &str) -> (r: bool)
    ensures
        r == extractable(path@),
{
    (has_prefix(path, "/obj/") || has_prefix(path, "/turf/") || has_prefix(path, "/mob/")) && !has_prefix(
        path,
        "/obj/effect/abstract",
    ) && !has_prefix(path, "/obj/effect/landmark") && !has_prefix(path, "/obj/effect/spawner") && !has_prefix(
        path,
        "/obj/effect/mapping_helpers",
    ) && !has_prefix(path, "/obj/docking_port") && !has_prefix(path, "/mob/dead") && !has_prefix(path, "/mob/camera")
}

fn is_wanted(path: &str, filter: Option<&str>) -> (r: bool)
    ensures
        r == wanted(path@, crate::builder::opt_str(filter)),
{
    is_extractable(path) && match filter {
        Some(f) => has_prefix(path, f),
        None => true,
    }
}

/// The views of a list of places.
pub open spec fn places(v: Seq<usize>) -> Seq<int> {
    v.map_values(|t: usize| t as int)
}

impl ObjectTree {
    /// The wanted types from a type down the path hierarchy, each before those below it.
    pub open spec fn wanted_from(&self, t: int, filter: Option<Seq<char>>) -> Seq<int>
        decreases self.types@.len() - t, self.types@[t].children@.len() + 1,
    {
        (if wanted(self.path(t), filter) {
            seq![t]
        } else {
            Seq::empty()
        }) + self.wanted_below(t, self.types@[t].children@, filter)
    }

    /// The wanted types from each of a type's children down.
    pub open spec fn wanted_below(&self, t: int, children: Seq<(String, usize)>, filter: Option<Seq<char>>) -> Seq<int>
        decreases self.types@.len() - t, children.len(),
    {
        if children.len() == 0 {
            Seq::empty()
        } else {
            let c = children.last().1 as int;
            self.wanted_below(t, children.drop_last(), filter) + (if t < c < self.types@.len() {
                self.wanted_from(c, filter)
            } else {
                Seq::empty()
            })
        }
    }

    fn walk_type(&self, t: usize, out: &mut Vec<usize>, filter: Option<&str>)
        requires
            self.wf(),
            t < self.types@.len(),
        ensures
            places(final(out)@) == places(old(out)@) + self.wanted_from(t as int, crate::builder::opt_str(filter)),
        decreases self.types@.len() - t,
    {
        let ghost f = crate::builder::opt_str(filter);
        let ghost before = places(out@);
        let node = &self.types[t];
        if is_wanted(node.path.as_str(), filter) {
            out.push(t);
            assert(places(out@) =~= before + seq![t as int]);
        } else {
            assert(places(out@) =~= before + Seq::<int>::empty());
        }
        let ghost start = places(out@);
        let ghost kids = node.children@;
        let mut i: usize = 0;
        assert(kids.take(0) =~= Seq::empty());
        assert(places(out@) =~= start + self.wanted_below(t as int, kids.take(0), f));
        while i < node.children.len()
            invariant
                i <= kids.len(),
                kids == node.children@,
                node == self.types@[t as int],
                self.wf(),
                t < self.types@.len(),
                f == crate::builder::opt_str(filter),
                places(out@) == start + self.wanted_below(t as int, kids.take(i as int), f),
            decreases kids.len() - i,
        {
            let ghost was = places(out@);
            assert(kids.take(i + 1).drop_last() =~= kids.take(i as int));
            assert(kids.take(i + 1).last() == kids[i as int]);
            let c: usize = node.children[i].1;
            assert(t < self.types@[t as int].children@[i as int].1 < self.types@.len());
            self.walk_type(c, out, filter);
            assert(places(out@) =~= start + self.wanted_below(t as int, kids.take(i + 1), f));
            i = i + 1;
        }
        assert(kids.take(i as int) =~= kids);
        assert(places(out@) =~= before + self.wanted_from(t as int, f));
    }
}

/// Lists the types whose sprites are extracted, in the order of the path hierarchy.
pub fn collect_extractable_types(tree: &ObjectTree, filter: Option<&str>) -> (r: Vec<usize>)
    requires
        tree.wf(),
    ensures
        places(r@) == tree.wanted_from(0, crate::builder::opt_str(filter)),
{
    let mut out: Vec<usize> = Vec::new();
    tree.walk_type(0, &mut out, filter);
    assert(places(out@) =~= tree.wanted_from(0, crate::builder::opt_str(filter)));
    out
}

proof fn lemma_below_wanted(tree: &ObjectTree, t: int, children: Seq<(String, usize)>, filter: Option<Seq<char>>)
    requires
        0 <= t < tree.types@.len(),
    ensures
        forall|i: int| 0 <= i < tree.wanted_below(t, children, filter).len() ==> {
            let c = #[trigger] tree.wanted_below(t, children, filter)[i];
            t < c < tree.types@.len() && wanted(tree.path(c), filter)
        },
    decreases tree.types@.len() - t, children.len(),
{
    if children.len() > 0 {
        lemma_below_wanted(tree, t, children.drop_last(), filter);
        let all = tree.wanted_below(t, children, filter);
        let before = tree.wanted_below(t, children.drop_last(), filter);
        let c = children.last().1 as int;
        if t < c < tree.types@.len() {
            every_extracted_type_is_wanted(tree, c, filter);
        }
        assert forall|i: int| 0 <= i < all.len() implies {
            let d = #[trigger] all[i];
            t < d < tree.types@.len() && wanted(tree.path(d), filter)
        } by {
            if i < before.len() {
                assert(all[i] == before[i]);
            } else {
                assert(all[i] == tree.wanted_from(c, filter)[i - before.len()]);
            }
        }
    }
}

/// Every type that is extracted is a type of the tree whose path is wanted.
pub proof fn every_extracted_type_is_wanted(tree: &ObjectTree, t: int, filter: Option<Seq<char>>)
    requires
        0 <= t < tree.types@.len(),
    ensures
        forall|i: int| 0 <= i < tree.wanted_from(t, filter).len() ==> {
            let c = #[trigger] tree.wanted_from(t, filter)[i];
            t <= c < tree.types@.len() && wanted(tree.path(c), filter)
        },
    decreases tree.types@.len() - t, tree.types@[t].children@.len() + 1,
{
    let children = tree.types@[t].children@;
    lemma_below_wanted(tree, t, children, filter);
    let all = tree.wanted_from(t, filter);
    let below = tree.wanted_below(t, children, filter);
    let own = all.len() - below.len();
    assert forall|i: int| 0 <= i < all.len() implies {
        let d = #[trigger] all[i];
        t <= d < tree.types@.len() && wanted(tree.path(d), filter)
    } by {
        if i >= own {
            assert(all[i] == below[i - own]);
        }
    }
}

/// Whether the path of a type begins with a filter.
pub open spec fn path_begins(tree: &ObjectTree, filter: Seq<char>) -> spec_fn(int) -> bool {
    |t: int| starts_with(tree.path(t), filter)
}

proof fn lemma_filter_below(tree: &ObjectTree, t: int, children: Seq<(String, usize)>, filter: Seq<char>)
    requires
        0 <= t < tree.types@.len(),
    ensures
        tree.wanted_below(t, children, Some(filter)) == tree.wanted_below(t, children, None).filter(
            path_begins(tree, filter),
        ),
    decreases tree.types@.len() - t, children.len(),
{
    reveal(Seq::filter);
    let pred = path_begins(tree, filter);
    if children.len() > 0 {
        lemma_filter_below(tree, t, children.drop_last(), filter);
        let before = tree.wanted_below(t, children.drop_last(), None);
        let c = children.last().1 as int;
        if t < c < tree.types@.len() {
            a_filter_only_leaves_out(tree, c, filter);
            Seq::filter_distributes_over_add(before, tree.wanted_from(c, None), pred);
        } else {
            assert(before + Seq::<int>::empty() =~= before);
            let some = tree.wanted_below(t, children.drop_last(), Some(filter));
            assert(some + Seq::<int>::empty() =~= some);
        }
    }
}

/// A filter only leaves out types: what is extracted with it is what is extracted without it, but
/// for the types whose path does not begin with it, and in the same order.
pub proof fn a_filter_only_leaves_out(tree: &ObjectTree, t: int, filter: Seq<char>)
    requires
        0 <= t < tree.types@.len(),
    ensures
        tree.wanted_from(t, Some(filter)) == tree.wanted_from(t, None).filter(path_begins(tree, filter)),
    decreases tree.types@.len() - t, tree.types@[t].children@.len() + 1,
{
    reveal(Seq::filter);
    let pred = path_begins(tree, filter);
    let children = tree.types@[t].children@;
    lemma_filter_below(tree, t, children, filter);
    let own = if wanted(tree.path(t), None) {
        seq![t]
    } else {
        Seq::empty()
    };
    Seq::filter_distributes_over_add(own, tree.wanted_below(t, children, None), pred);
    if wanted(tree.path(t), None) {
        assert(own.drop_last() =~= Seq::empty());
        assert(own.drop_last().filter(pred) =~= Seq::empty());
        if pred(t) {
            assert(own.filter(pred) =~= seq![t]);
        } else {
            assert(own.filter(pred) =~= Seq::empty());
        }
    } else {
        assert(own.filter(pred) =~= Seq::empty());
    }
}

proof fn lemma_begins(head: Seq<char>, rest: Seq<char>, tail: Seq<char>)
    ensures
        starts_with(head + rest, head),
        starts_with(head + rest, head + tail) <==> starts_with(rest, tail),
{
    let s = head + rest;
    assert(s.take(head.len() as int) =~= head);
    if tail.len() <= rest.len() {
        assert(s.take((head.len() + tail.len()) as int) =~= head + rest.take(tail.len() as int));
        if s.take((head.len() + tail.len()) as int) == head + tail {
            assert(rest.take(tail.len() as int) =~= tail) by {
                assert forall|i: int| 0 <= i < tail.len() implies rest[i] == tail[i] by {
                    assert(s.take((head.len() + tail.len()) as int)[head.len() + i] == (head + tail)[head.len() + i]);
                }
            }
        }
    }
}

/// Which paths are extracted: every turf; every mob but the dead and cameras; every object but
/// docking ports and the effects that are abstract, landmarks, spawners and mapping helpers; and
/// nothing else.
pub proof fn extractable_paths(rest: Seq<char>, path: Seq<char>)
    ensures
        extractable("/turf/"@ + rest),
        extractable("/mob/"@ + rest) <==> !starts_with(rest, "dead"@) && !starts_with(rest, "camera"@),
        extractable("/obj/"@ + rest) <==> {
            &&& !starts_with(rest, "effect/abstract"@)
            &&& !starts_with(rest, "effect/landmark"@)
            &&& !starts_with(rest, "effect/spawner"@)
            &&& !starts_with(rest, "effect/mapping_helpers"@)
            &&& !starts_with(rest, "docking_port"@)
        },
        extractable(path) ==> starts_with(path, "/obj/"@) || starts_with(path, "/turf/"@) || starts_with(path, "/mob/"@),
{
    reveal_strlit("/turf/");
    reveal_strlit("/mob/");
    reveal_strlit("/obj/");
    reveal_strlit("dead");
    reveal_strlit("camera");
    reveal_strlit("effect/abstract");
    reveal_strlit("effect/landmark");
    reveal_strlit("effect/spawner");
    reveal_strlit("effect/mapping_helpers");
    reveal_strlit("docking_port");
    reveal_strlit("/mob/dead");
    reveal_strlit("/mob/camera");
    reveal_strlit("/obj/effect/abstract");
    reveal_strlit("/obj/effect/landmark");
    reveal_strlit("/obj/effect/spawner");
    reveal_strlit("/obj/effect/mapping_helpers");
    reveal_strlit("/obj/docking_port");
    assert("/mob/"@ + "dead"@ =~= "/mob/dead"@);
    assert("/mob/"@ + "camera"@ =~= "/mob/camera"@);
    assert("/obj/"@ + "effect/abstract"@ =~= "/obj/effect/abstract"@);
    assert("/obj/"@ + "effect/landmark"@ =~= "/obj/effect/landmark"@);
    assert("/obj/"@ + "effect/spawner"@ =~= "/obj/effect/spawner"@);
    assert("/obj/"@ + "effect/mapping_helpers"@ =~= "/obj/effect/mapping_helpers"@);
    assert("/obj/"@ + "docking_port"@ =~= "/obj/docking_port"@);
    lemma_begins("/turf/"@, rest, "dead"@);
    lemma_begins("/mob/"@, rest, "dead"@);
    lemma_begins("/mob/"@, rest, "camera"@);
    lemma_begins("/obj/"@, rest, "effect/abstract"@);
    lemma_begins("/obj/"@, rest, "effect/landmark"@);
    lemma_begins("/obj/"@, rest, "effect/spawner"@);
    lemma_begins("/obj/"@, rest, "effect/mapping_helpers"@);
    lemma_begins("/obj/"@, rest, "docking_port"@);
    lemma_second("/turf/"@ + rest, 't');
    lemma_second("/mob/"@ + rest, 'm');
    lemma_second("/obj/"@ + rest, 'o');
}

proof fn lemma_second(path: Seq<char>, c: char)
    requires
        path.len() > 1,
        path[1] == c,
    ensures
        c != 'o' ==> !starts_with(path, "/obj/"@) && !starts_with(path, "/obj/effect/abstract"@) && !starts_with(
            path,
            "/obj/effect/landmark"@,
        ) && !starts_with(path, "/obj/effect/spawner"@) && !starts_with(path, "/obj/effect/mapping_helpers"@) && !starts_with(
            path,
            "/obj/docking_port"@,
        ),
        c != 'm' ==> !starts_with(path, "/mob/"@) && !starts_with(path, "/mob/dead"@) && !starts_with(path, "/mob/camera"@),
        c != 't' ==> !starts_with(path, "/turf/"@),
{
    reveal_strlit("/turf/");
    reveal_strlit("/mob/");
    reveal_strlit("/obj/");
    reveal_strlit("/mob/dead");
    reveal_strlit("/mob/camera");
    reveal_strlit("/obj/effect/abstract");
    reveal_strlit("/obj/effect/landmark");
    reveal_strlit("/obj/effect/spawner");
    reveal_strlit("/obj/effect/mapping_helpers");
    reveal_strlit("/obj/docking_port");
    lemma_parts(path, "/turf/"@);
    lemma_parts(path, "/mob/"@);
    lemma_parts(path, "/obj/"@);
    lemma_parts(path, "/mob/dead"@);
    lemma_parts(path, "/mob/camera"@);
    lemma_parts(path, "/obj/effect/abstract"@);
    lemma_parts(path, "/obj/effect/landmark"@);
    lemma_parts(path, "/obj/effect/spawner"@);
    lemma_parts(path, "/obj/effect/mapping_helpers"@);
    lemma_parts(path, "/obj/docking_port"@);
}

proof fn lemma_parts(path: Seq<char>, head: Seq<char>)
    requires
        path.len() > 1,
        head.len() > 1,
    ensures
        path[1] != head[1] ==> !starts_with(path, head),
{
    if head.len() <= path.len() {
        assert(path.take(head.len() as int)[1] == path[1]);
    }
}

/// A type that is wanted is extracted, in front of everything below it, and whatever is extracted
/// of a child is extracted of the type, in the same order.
pub proof fn every_wanted_type_is_extracted(tree: &ObjectTree, t: int, filter: Option<Seq<char>>, i: int)
    requires
        tree.wf(),
        0 <= t < tree.types@.len(),
        0 <= i < tree.types@[t].children@.len(),
    ensures
        ({
            let all = tree.wanted_from(t, filter);
            let inner = tree.wanted_from(tree.types@[t].children@[i].1 as int, filter);
            &&& wanted(tree.path(t), filter) ==> all.len() > 0 && all[0] == t
            &&& exists|from: int| 0 <= from && from + inner.len() <= all.len() && #[trigger] all.subrange(from, from + inner.len())
                == inner
        }),
{
    let children = tree.types@[t].children@;
    let all = tree.wanted_from(t, filter);
    let below = tree.wanted_below(t, children, filter);
    let own = all.len() - below.len();
    let inner = tree.wanted_from(children[i].1 as int, filter);
    let from = lemma_child_in_below(tree, t, children, filter, i);
    assert(all.subrange(own + from, own + from + inner.len()) =~= below.subrange(from, from + inner.len()));
}

proof fn lemma_child_in_below(
    tree: &ObjectTree,
    t: int,
    children: Seq<(String, usize)>,
    filter: Option<Seq<char>>,
    i: int,
) -> (from: int)
    requires
        0 <= t < tree.types@.len(),
        0 <= i < children.len(),
        forall|j: int| 0 <= j < children.len() ==> t < (#[trigger] children[j]).1 < tree.types@.len(),
    ensures
        ({
            let below = tree.wanted_below(t, children, filter);
            let inner = tree.wanted_from(children[i].1 as int, filter);
            &&& 0 <= from
            &&& from + inner.len() <= below.len()
            &&& below.subrange(from, from + inner.len()) == inner
        }),
    decreases children.len(),
{
    let front = children.drop_last();
    let below = tree.wanted_below(t, children, filter);
    let before = tree.wanted_below(t, front, filter);
    let inner = tree.wanted_from(children[i].1 as int, filter);
    assert(t < children[children.len() - 1].1 < tree.types@.len());
    if i == children.len() - 1 {
        assert(below.subrange(before.len() as int, (before.len() + inner.len()) as int) =~= inner);
        before.len() as int
    } else {
        assert forall|j: int| 0 <= j < front.len() implies t < (#[trigger] front[j]).1 < tree.types@.len() by {
            assert(front[j] == children[j]);
        }
        let from = lemma_child_in_below(tree, t, front, filter, i);
        assert(below.subrange(from, from + inner.len()) =~= before.subrange(from, from + inner.len()));
        from
    }
}

} // verus!

//! The dependency resolver, specified as a recursive function that mirrors
//! the executable stack-based traversal step for step.
//!
//! `run` pops a name from the work stack; a name already recorded is skipped,
//! a name absent from the catalog is silently dropped, and a catalog name is
//! recorded and has its declared dependencies pushed. `resolution` reverses
//! the recorded list, which is the order the installer uses.

use vstd::prelude::*;
use crate::model::PackageView;

verus! {

/// The names of the catalog's entries, in catalog order.
pub open spec fn names(cat: Seq<PackageView>) -> Seq<Seq<char>> {
    cat.map_values(|p: PackageView| p.name)
}

/// The first catalog entry with the given name, if any.
pub open spec fn find_pkg(cat: Seq<PackageView>, name: Seq<char>) -> Option<PackageView>
    decreases cat.len(),
{
    if cat.len() == 0 {
        None
    } else if cat[0].name == name {
        Some(cat[0])
    } else {
        find_pkg(cat.drop_first(), name)
    }
}

/// Whether some catalog entry carries the given name.
pub open spec fn has_name(cat: Seq<PackageView>, name: Seq<char>) -> bool {
    find_pkg(cat, name) is Some
}

/// How many catalog names are not yet recorded: the resolver's termination
/// measure.
pub open spec fn unresolved(cat: Seq<PackageView>, resolved: Seq<Seq<char>>) -> nat {
    names(cat).to_set().difference(resolved.to_set()).len()
}

/// If `name` is on file in `cat` and not yet recorded, there is a concrete
/// index holding it, so the set of catalog names contains it.
pub proof fn lemma_find_pkg_index(cat: Seq<PackageView>, name: Seq<char>)
    requires
        has_name(cat, name),
    ensures
        exists|i: int| 0 <= i < cat.len() && cat[i].name == name && find_pkg(cat, name) == Some(cat[i]),
    decreases cat.len(),
{
    if cat.len() > 0 && cat[0].name != name {
        lemma_find_pkg_index(cat.drop_first(), name);
        let i = choose|i: int|
            0 <= i < cat.drop_first().len() && cat.drop_first()[i].name == name
                && find_pkg(cat.drop_first(), name) == Some(cat.drop_first()[i]);
        assert(cat[i + 1].name == name && find_pkg(cat, name) == Some(cat[i + 1]));
    }
}

/// Recording a catalog name that was not recorded before strictly shrinks the
/// set of catalog names still outstanding.
pub proof fn lemma_unresolved_push(cat: Seq<PackageView>, resolved: Seq<Seq<char>>, name: Seq<char>)
    requires
        has_name(cat, name),
        !resolved.contains(name),
    ensures
        unresolved(cat, resolved.push(name)) < unresolved(cat, resolved),
{
    broadcast use vstd::set::group_set_axioms, vstd::seq_lib::seq_to_set_is_finite;

    let ns = names(cat).to_set();
    lemma_find_pkg_index(cat, name);
    let i = choose|i: int| 0 <= i < cat.len() && cat[i].name == name;
    assert(names(cat)[i] == name);
    assert(names(cat).contains(name));
    assert(ns.contains(name));
    assert(resolved.push(name).to_set() =~= resolved.to_set().insert(name)) by {
        assert forall|x: Seq<char>| resolved.push(name).contains(x)
            implies resolved.contains(x) || x == name by {
            let j = choose|j: int| 0 <= j < resolved.push(name).len() && resolved.push(name)[j] == x;
            if j < resolved.len() {
                assert(resolved[j] == x);
            }
        }
        assert forall|x: Seq<char>| resolved.contains(x)
            implies resolved.push(name).contains(x) by {
            let j = choose|j: int| 0 <= j < resolved.len() && resolved[j] == x;
            assert(resolved.push(name)[j] == x);
        }
        assert(resolved.push(name)[resolved.len() as int] == name);
    }
    let d0 = ns.difference(resolved.to_set());
    let d1 = ns.difference(resolved.to_set().insert(name));
    assert(d1 =~= d0.remove(name));
    assert(d0.contains(name));
    assert(ns.finite());
    assert(d0.finite());
    assert(d0.remove(name).len() == d0.len() - 1);
}

/// One step of the stack traversal. The recorded list grows front to back;
/// dependencies are pushed in declared order, so the last declared one is
/// popped first.
pub open spec fn run(
    cat: Seq<PackageView>,
    stack: Seq<Seq<char>>,
    resolved: Seq<Seq<char>>,
) -> Seq<Seq<char>>
    decreases unresolved(cat, resolved), stack.len(),
{
    if stack.len() == 0 {
        resolved
    } else {
        let name = stack.last();
        let rest = stack.drop_last();
        if resolved.contains(name) {
            run(cat, rest, resolved)
        } else {
            match find_pkg(cat, name) {
                Some(p) => {
                    proof {
                        lemma_unresolved_push(cat, resolved, name);
                    }
                    run(cat, rest + p.dependencies, resolved.push(name))
                },
                None => run(cat, rest, resolved),
            }
        }
    }
}

/// The resolution order for `root`: the recorded list of the traversal seeded
/// with `root`, reversed.
pub open spec fn resolution(cat: Seq<PackageView>, root: Seq<char>) -> Seq<Seq<char>> {
    run(cat, seq![root], Seq::empty()).reverse()
}

} // verus!


verus! {

/// No name occurs twice in the sequence.
pub open spec fn distinct(s: Seq<Seq<char>>) -> bool {
    forall|i: int, j: int| 0 <= i < j < s.len() ==> s[i] != s[j]
}

/// The traversal only ever appends to the recorded list, records only catalog
/// names, and never records a name twice.
pub proof fn lemma_run_props(cat: Seq<PackageView>, stack: Seq<Seq<char>>, resolved: Seq<Seq<char>>)
    ensures
        run(cat, stack, resolved).len() >= resolved.len(),
        forall|i: int| 0 <= i < resolved.len() ==> run(cat, stack, resolved)[i] == resolved[i],
        forall|i: int|
            resolved.len() <= i < run(cat, stack, resolved).len()
                ==> has_name(cat, #[trigger] run(cat, stack, resolved)[i]),
        distinct(resolved) ==> distinct(run(cat, stack, resolved)),
    decreases unresolved(cat, resolved), stack.len(),
{
    if stack.len() == 0 {
    } else {
        let name = stack.last();
        let rest = stack.drop_last();
        if resolved.contains(name) {
            lemma_run_props(cat, rest, resolved);
        } else {
            match find_pkg(cat, name) {
                Some(p) => {
                    lemma_unresolved_push(cat, resolved, name);
                    lemma_run_props(cat, rest + p.dependencies, resolved.push(name));
                    let r2 = resolved.push(name);
                    let next = run(cat, rest + p.dependencies, r2);
                    assert(run(cat, stack, resolved) == next);
                    assert forall|i: int| 0 <= i < resolved.len() implies next[i] == resolved[i] by {
                        assert(next[i] == r2[i]);
                    }
                    assert forall|i: int| resolved.len() <= i < next.len()
                        implies has_name(cat, #[trigger] next[i]) by {
                        if i < r2.len() {
                            assert(next[i] == r2[i]);
                            assert(r2[i] == name);
                        }
                    }
                    assert(distinct(resolved) ==> distinct(r2)) by {
                        if distinct(resolved) {
                            assert forall|i: int, j: int| 0 <= i < j < r2.len() implies r2[i] != r2[j] by {
                                if j == resolved.len() {
                                    assert(!resolved.contains(name));
                                    assert(resolved[i] != name);
                                }
                            }
                        }
                    }
                },
                None => {
                    lemma_run_props(cat, rest, resolved);
                },
            }
        }
    }
}

/// Every name in a resolution order is the name of some catalog entry:
/// unknown names are dropped, never resolved.
pub proof fn lemma_resolution_members(cat: Seq<PackageView>, root: Seq<char>)
    ensures
        forall|i: int|
            0 <= i < resolution(cat, root).len()
                ==> has_name(cat, #[trigger] resolution(cat, root)[i]),
{
    lemma_run_props(cat, seq![root], Seq::empty());
    let r = run(cat, seq![root], Seq::empty());
    assert forall|i: int| 0 <= i < r.reverse().len() implies has_name(cat, #[trigger] r.reverse()[i]) by {
        assert(r.reverse()[i] == r[r.len() - 1 - i]);
    }
}

/// A resolution order never repeats a name: each reachable package is visited
/// exactly once, also on cyclic graphs (which the traversal, being total,
/// also terminates on).
pub proof fn lemma_resolution_distinct(cat: Seq<PackageView>, root: Seq<char>)
    ensures
        distinct(resolution(cat, root)),
{
    lemma_run_props(cat, seq![root], Seq::empty());
    let r = run(cat, seq![root], Seq::empty());
    assert forall|i: int, j: int| 0 <= i < j < r.reverse().len() implies r.reverse()[i] != r.reverse()[j] by {
        assert(r.reverse()[i] == r[r.len() - 1 - i]);
        assert(r.reverse()[j] == r[r.len() - 1 - j]);
    }
}

/// Resolving a root that is not in the catalog yields the empty order.
pub proof fn lemma_resolution_unknown_root(cat: Seq<PackageView>, root: Seq<char>)
    requires
        !has_name(cat, root),
    ensures
        resolution(cat, root) == Seq::<Seq<char>>::empty(),
{
    let stack = seq![root];
    assert(stack.last() == root);
    assert(stack.drop_last() =~= Seq::<Seq<char>>::empty());
    assert(run(cat, Seq::empty(), Seq::empty()) == Seq::<Seq<char>>::empty());
    assert(run(cat, stack, Seq::empty()) == Seq::<Seq<char>>::empty());
    assert(Seq::<Seq<char>>::empty().reverse() =~= Seq::<Seq<char>>::empty());
}

/// When the root is on file, it is recorded first, so the resolution order
/// ends in the root.
pub proof fn lemma_resolution_root_last(cat: Seq<PackageView>, root: Seq<char>)
    requires
        has_name(cat, root),
    ensures
        resolution(cat, root).len() >= 1,
        resolution(cat, root).last() == root,
{
    let stack = seq![root];
    let p = find_pkg(cat, root)->Some_0;
    assert(stack.last() == root);
    assert(!Seq::<Seq<char>>::empty().contains(root));
    assert(run(cat, stack, Seq::empty())
        == run(cat, stack.drop_last() + p.dependencies, Seq::empty().push(root)));
    lemma_run_props(cat, stack.drop_last() + p.dependencies, Seq::empty().push(root));
    let r = run(cat, stack, Seq::empty());
    assert(r[0] == Seq::empty().push(root)[0]);
    assert(r.reverse().last() == r[0]);
}

} // verus!

verus! {

/// A simple chain catalog: distinct names, each entry depending on exactly
/// the next one, the last depending on nothing.
pub open spec fn is_chain(cat: Seq<PackageView>) -> bool {
    &&& distinct(names(cat))
    &&& forall|i: int|
        0 <= i < cat.len() - 1 ==> (#[trigger] cat[i]).dependencies == seq![cat[i + 1].name]
    &&& cat.len() > 0 ==> cat.last().dependencies == Seq::<Seq<char>>::empty()
}

/// Under distinct names, looking up the name of the entry at `i` finds that
/// entry.
pub proof fn lemma_find_at(cat: Seq<PackageView>, i: int)
    requires
        distinct(names(cat)),
        0 <= i < cat.len(),
    ensures
        find_pkg(cat, cat[i].name) == Some(cat[i]),
    decreases i,
{
    if i > 0 {
        assert(names(cat)[0] != names(cat)[i]);
        assert(cat[0].name != cat[i].name);
        let rest = cat.drop_first();
        assert(names(rest) =~= names(cat).drop_first());
        assert(distinct(names(rest))) by {
            assert forall|a: int, b: int| 0 <= a < b < names(rest).len()
                implies names(rest)[a] != names(rest)[b] by {
                assert(names(rest)[a] == names(cat)[a + 1]);
                assert(names(rest)[b] == names(cat)[b + 1]);
            }
        }
        lemma_find_at(rest, i - 1);
        assert(rest[i - 1] == cat[i]);
    }
}

/// From any link of the chain, with all earlier links recorded, the traversal
/// records the remaining links in chain order.
proof fn lemma_chain_run(cat: Seq<PackageView>, i: int)
    requires
        is_chain(cat),
        0 <= i < cat.len(),
    ensures
        run(cat, seq![cat[i].name], names(cat).take(i)) == names(cat),
    decreases cat.len() - i,
{
    let stack = seq![cat[i].name];
    let resolved = names(cat).take(i);
    assert(stack.last() == cat[i].name);
    assert(stack.drop_last() =~= Seq::<Seq<char>>::empty());
    assert(!resolved.contains(cat[i].name)) by {
        assert forall|j: int| 0 <= j < resolved.len() implies resolved[j] != cat[i].name by {
            assert(resolved[j] == names(cat)[j]);
            assert(names(cat)[j] != names(cat)[i]);
        }
    }
    lemma_find_at(cat, i);
    assert(resolved.push(cat[i].name) =~= names(cat).take(i + 1));
    if i == cat.len() - 1 {
        assert(cat[i].dependencies == Seq::<Seq<char>>::empty());
        assert(stack.drop_last() + cat[i].dependencies =~= Seq::<Seq<char>>::empty());
        assert(run(cat, Seq::empty(), names(cat).take(i + 1)) == names(cat).take(i + 1));
        assert(names(cat).take(i + 1) =~= names(cat));
    } else {
        assert(cat[i].dependencies == seq![cat[i + 1].name]);
        assert(stack.drop_last() + cat[i].dependencies =~= seq![cat[i + 1].name]);
        lemma_chain_run(cat, i + 1);
    }
}

/// On a chain catalog, resolving the head yields exactly the chain's names in
/// reverse: each reachable name exactly once, every name after the name it
/// depends on, the head last.
pub proof fn lemma_resolution_chain(cat: Seq<PackageView>)
    requires
        is_chain(cat),
        cat.len() > 0,
    ensures
        resolution(cat, cat[0].name) == names(cat).reverse(),
{
    lemma_chain_run(cat, 0);
    assert(names(cat).take(0) =~= Seq::<Seq<char>>::empty());
    assert(run(cat, seq![cat[0].name], Seq::empty()) == names(cat));
}

} // verus!

verus! {

/// The position of the first entry named `name`; meaningful only when
/// `has_name` holds.
pub open spec fn index_of_name(cat: Seq<PackageView>, name: Seq<char>) -> int
    decreases cat.len(),
{
    if cat.len() == 0 {
        0
    } else if cat[0].name == name {
        0
    } else {
        1 + index_of_name(cat.drop_first(), name)
    }
}

/// `index_of_name` indeed points at the first match, and `find_pkg` returns
/// the entry there.
pub proof fn lemma_index_of_name(cat: Seq<PackageView>, name: Seq<char>)
    requires
        has_name(cat, name),
    ensures
        0 <= index_of_name(cat, name) < cat.len(),
        cat[index_of_name(cat, name)].name == name,
        forall|j: int| 0 <= j < index_of_name(cat, name) ==> cat[j].name != name,
        find_pkg(cat, name) == Some(cat[index_of_name(cat, name)]),
    decreases cat.len(),
{
    if cat.len() > 0 && cat[0].name != name {
        lemma_index_of_name(cat.drop_first(), name);
        let k = index_of_name(cat.drop_first(), name);
        assert(cat[k + 1] == cat.drop_first()[k]);
        assert forall|j: int| 0 <= j < index_of_name(cat, name) implies cat[j].name != name by {
            if j > 0 {
                assert(cat.drop_first()[j - 1].name != name);
            }
        }
    }
}

/// A linear scan that found no match means the name is not on file.
pub proof fn lemma_find_none(cat: Seq<PackageView>, name: Seq<char>)
    requires
        forall|j: int| 0 <= j < cat.len() ==> (#[trigger] cat[j]).name != name,
    ensures
        find_pkg(cat, name) is None,
    decreases cat.len(),
{
    if cat.len() > 0 {
        assert forall|j: int| 0 <= j < cat.drop_first().len()
            implies (#[trigger] cat.drop_first()[j]).name != name by {
            assert(cat.drop_first()[j] == cat[j + 1]);
        }
        lemma_find_none(cat.drop_first(), name);
    }
}

/// Inserting into the catalog: overwrite the first entry with that name, or
/// append a new one. Last write wins, each name keyed once.
pub open spec fn insert_pkg(cat: Seq<PackageView>, p: PackageView) -> Seq<PackageView> {
    if has_name(cat, p.name) {
        cat.update(index_of_name(cat, p.name), p)
    } else {
        cat.push(p)
    }
}

/// Inserting a whole sequence of records, first to last.
pub open spec fn add_all(cat: Seq<PackageView>, pkgs: Seq<PackageView>) -> Seq<PackageView>
    decreases pkgs.len(),
{
    if pkgs.len() == 0 {
        cat
    } else {
        add_all(insert_pkg(cat, pkgs[0]), pkgs.drop_first())
    }
}

} // verus!

verus! {

/// A linear scan that found its first match at `i` agrees with `find_pkg`.
pub proof fn lemma_find_from_scan(cat: Seq<PackageView>, name: Seq<char>, i: int)
    requires
        0 <= i < cat.len(),
        cat[i].name == name,
        forall|j: int| 0 <= j < i ==> (#[trigger] cat[j]).name != name,
    ensures
        find_pkg(cat, name) == Some(cat[i]),
        index_of_name(cat, name) == i,
    decreases i,
{
    if i > 0 {
        assert forall|j: int| 0 <= j < i - 1 implies (#[trigger] cat.drop_first()[j]).name != name by {
            assert(cat.drop_first()[j] == cat[j + 1]);
        }
        assert(cat.drop_first()[i - 1] == cat[i]);
        lemma_find_from_scan(cat.drop_first(), name, i - 1);
    }
}

} // verus!

verus! {

/// Pushing a record reaches lookups for its own name and changes no other.
pub proof fn lemma_find_push(cat: Seq<PackageView>, p: PackageView, name: Seq<char>)
    ensures
        has_name(cat.push(p), name) <==> has_name(cat, name) || p.name == name,
    decreases cat.len(),
{
    if cat.len() == 0 {
        assert(cat.push(p)[0] == p);
        assert(cat.push(p).len() == 1);
    } else {
        assert(cat.push(p)[0] == cat[0]);
        assert(cat.push(p).drop_first() =~= cat.drop_first().push(p));
        lemma_find_push(cat.drop_first(), p, name);
    }
}

/// Adding records whose names are fresh and mutually distinct appends them in
/// order, changing nothing already on file.
pub proof fn lemma_add_all_fresh(cat: Seq<PackageView>, pkgs: Seq<PackageView>)
    requires
        distinct(names(pkgs)),
        forall|i: int| 0 <= i < pkgs.len() ==> !has_name(cat, (#[trigger] pkgs[i]).name),
    ensures
        add_all(cat, pkgs) == cat + pkgs,
    decreases pkgs.len(),
{
    if pkgs.len() == 0 {
        assert(cat + pkgs =~= cat);
    } else {
        let p0 = pkgs[0];
        assert(!has_name(cat, p0.name));
        assert(insert_pkg(cat, p0) == cat.push(p0));
        let cat2 = cat.push(p0);
        let rest = pkgs.drop_first();
        assert(names(rest) =~= names(pkgs).drop_first());
        assert(distinct(names(rest))) by {
            assert forall|a: int, b: int| 0 <= a < b < names(rest).len()
                implies names(rest)[a] != names(rest)[b] by {
                assert(names(rest)[a] == names(pkgs)[a + 1]);
                assert(names(rest)[b] == names(pkgs)[b + 1]);
            }
        }
        assert forall|i: int| 0 <= i < rest.len()
            implies !has_name(cat2, (#[trigger] rest[i]).name) by {
            assert(rest[i] == pkgs[i + 1]);
            assert(names(pkgs)[i + 1] != names(pkgs)[0]);
            assert(rest[i].name != p0.name);
            assert(!has_name(cat, rest[i].name));
            lemma_find_push(cat, p0, rest[i].name);
        }
        lemma_add_all_fresh(cat2, rest);
        assert(cat2 + rest =~= cat + pkgs);
    }
}

} // verus!

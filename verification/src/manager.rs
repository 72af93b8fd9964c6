//! The package catalog and the operations on it: adding and removing records,
//! lookup, listing, dependency resolution, and install planning.

use vstd::prelude::*;
use crate::model::{Package, PackageView, PkgError};
use crate::resolve::{
    find_pkg, has_name, index_of_name, insert_pkg, lemma_find_from_scan, lemma_find_none,
    lemma_resolution_members, lemma_unresolved_push, names, resolution, run, unresolved,
};

verus! {

/// The in-memory catalog: package records keyed by their name (each name held
/// at most once when built through `add_package`), plus the directory that
/// archives are downloaded to and extracted under.
pub struct PackageManager {
    packages: Vec<Package>,
    install_dir: String,
}

/// One fetch-and-extract step of an install: which package, from where, the
/// file the archive is saved as, and the directory it is unpacked into.
pub struct InstallAction {
    pub name: String,
    pub url: String,
    pub archive_path: String,
    pub extract_dir: String,
}

/// The mathematical view of an [`InstallAction`].
#[verifier::ext_equal]
pub struct InstallActionView {
    pub name: Seq<char>,
    pub url: Seq<char>,
    pub archive_path: Seq<char>,
    pub extract_dir: Seq<char>,
}

impl View for InstallAction {
    type V = InstallActionView;

    open spec fn view(&self) -> InstallActionView {
        InstallActionView {
            name: self.name@,
            url: self.url@,
            archive_path: self.archive_path@,
            extract_dir: self.extract_dir@,
        }
    }
}

impl DeepView for InstallAction {
    type V = InstallActionView;

    open spec fn deep_view(&self) -> InstallActionView {
        self.view()
    }
}

/// Where a package's downloaded archive is stored.
pub open spec fn archive_path_of(dir: Seq<char>, name: Seq<char>, version: Seq<char>) -> Seq<char> {
    dir + "/"@ + name + "-"@ + version + ".zip"@
}

/// Where a package's archive is extracted to.
pub open spec fn extract_dir_of(dir: Seq<char>, name: Seq<char>) -> Seq<char> {
    dir + "/"@ + name
}

/// Where the installed-state file lives.
pub open spec fn state_path_of(dir: Seq<char>) -> Seq<char> {
    dir + "/installed_packages.json"@
}

/// The install step for one resolved name, read off the catalog.
pub open spec fn action_for(cat: Seq<PackageView>, dir: Seq<char>, name: Seq<char>) -> InstallActionView {
    let p = find_pkg(cat, name)->Some_0;
    InstallActionView {
        name: name,
        url: p.url,
        archive_path: archive_path_of(dir, name, p.version),
        extract_dir: extract_dir_of(dir, name),
    }
}

/// The whole install schedule for `root`: one step per resolved name, in
/// resolution order.
pub open spec fn install_actions(cat: Seq<PackageView>, dir: Seq<char>, root: Seq<char>) -> Seq<
    InstallActionView,
> {
    resolution(cat, root).map_values(|n: Seq<char>| action_for(cat, dir, n))
}

/// True when `v` holds a string whose characters are `s`.
fn vec_contains(v: &Vec<String>, s: &String) -> (r: bool)
    ensures
        r == v.deep_view().contains(s@),
{
    let mut k: usize = 0;
    while k < v.len()
        invariant
            k <= v.len(),
            forall|j: int| 0 <= j < k ==> v.deep_view()[j] != s@,
        decreases v.len() - k,
    {
        if v[k] == *s {
            assert(v.deep_view()[k as int] == s@);
            return true;
        }
        k += 1;
    }
    proof {
        if v.deep_view().contains(s@) {
            let j = choose|j: int| 0 <= j < v.deep_view().len() && v.deep_view()[j] == s@;
            assert(v.deep_view()[j] != s@);
        }
    }
    false
}

/// The index of the first record named `name`, by linear scan.
fn position_of(v: &Vec<Package>, name: &String) -> (r: Option<usize>)
    ensures
        match r {
            Some(i) => i < v.len() && v.deep_view()[i as int].name == name@ && forall|j: int|
                0 <= j < i ==> (#[trigger] v.deep_view()[j]).name != name@,
            None => forall|j: int|
                0 <= j < v.len() ==> (#[trigger] v.deep_view()[j]).name != name@,
        },
{
    let mut k: usize = 0;
    while k < v.len()
        invariant
            k <= v.len(),
            forall|j: int| 0 <= j < k ==> (#[trigger] v.deep_view()[j]).name != name@,
        decreases v.len() - k,
    {
        if v[k].name == *name {
            assert(v.deep_view()[k as int].name == name@);
            return Some(k);
        }
        k += 1;
    }
    None
}

impl PackageManager {
    /// The catalog as a sequence of package views, in insertion order.
    pub closed spec fn catalog(&self) -> Seq<PackageView> {
        self.packages.deep_view()
    }

    /// The install directory's characters.
    pub closed spec fn dir(&self) -> Seq<char> {
        self.install_dir@
    }

    /// A fresh manager over an empty catalog.
    pub fn new(install_dir: String) -> (pm: Self)
        ensures
            pm.catalog() == Seq::<PackageView>::empty(),
            pm.dir() == install_dir@,
    {
        let pm = PackageManager { packages: Vec::new(), install_dir };
        proof {
            assert(pm.packages.deep_view() =~= Seq::<PackageView>::empty());
        }
        pm
    }

    /// Inserts `package` under its name, overwriting any record already held
    /// under that name.
    pub fn add_package(&mut self, package: Package)
        ensures
            final(self).catalog() == insert_pkg(old(self).catalog(), package@),
            final(self).dir() == old(self).dir(),
    {
        let ghost cat = self.packages.deep_view();
        let pos = position_of(&self.packages, &package.name);
        match pos {
            Some(i) => {
                proof {
                    lemma_find_from_scan(cat, package.name@, i as int);
                }
                self.packages[i] = package;
                proof {
                    assert(self.packages.deep_view() =~= cat.update(i as int, package@));
                }
            },
            None => {
                proof {
                    lemma_find_none(cat, package.name@);
                }
                self.packages.push(package);
                proof {
                    assert(self.packages.deep_view() =~= cat.push(package@));
                }
            },
        }
    }

    /// Deletes the record named `name`; fails with `NotFound`, changing
    /// nothing, when no record has that name. Does not cascade to dependents.
    pub fn remove_package(&mut self, name: &str) -> (r: Result<(), PkgError>)
        ensures
            r is Ok <==> has_name(old(self).catalog(), name@),
            match r {
                Ok(()) => final(self).catalog() == old(self).catalog().remove(
                    index_of_name(old(self).catalog(), name@),
                ) && final(self).dir() == old(self).dir(),
                Err(e) => e == PkgError::NotFound && *final(self) == *old(self),
            },
    {
        let ghost cat = self.packages.deep_view();
        let key = name.to_owned();
        let pos = position_of(&self.packages, &key);
        match pos {
            Some(i) => {
                proof {
                    lemma_find_from_scan(cat, name@, i as int);
                }
                self.packages.remove(i);
                proof {
                    assert(self.packages.deep_view() =~= cat.remove(i as int));
                }
                Ok(())
            },
            None => {
                proof {
                    lemma_find_none(cat, name@);
                }
                Err(PkgError::NotFound)
            },
        }
    }

    /// Looks up the record named `name`.
    pub fn get_package(&self, name: &str) -> (r: Option<&Package>)
        ensures
            match r {
                Some(p) => find_pkg(self.catalog(), name@) == Some(p@),
                None => !has_name(self.catalog(), name@),
            },
    {
        let ghost cat = self.packages.deep_view();
        let key = name.to_owned();
        let pos = position_of(&self.packages, &key);
        match pos {
            Some(i) => {
                proof {
                    lemma_find_from_scan(cat, name@, i as int);
                }
                Some(&self.packages[i])
            },
            None => {
                proof {
                    lemma_find_none(cat, name@);
                }
                None
            },
        }
    }

    /// The names of all records on file, in catalog order.
    pub fn list_installed_packages(&self) -> (r: Vec<String>)
        ensures
            r.deep_view() == names(self.catalog()),
    {
        let ghost cat = self.packages.deep_view();
        let mut r: Vec<String> = Vec::new();
        proof {
            assert(r.deep_view() =~= names(cat).take(0));
        }
        let mut k: usize = 0;
        while k < self.packages.len()
            invariant
                k <= self.packages.len(),
                cat == self.packages.deep_view(),
                r.deep_view() == names(cat).take(k as int),
            decreases self.packages.len() - k,
        {
            let ghost r0 = r.deep_view();
            let nm = self.packages[k].name.clone();
            r.push(nm);
            proof {
                assert(nm@ == cat[k as int].name);
                assert(r.deep_view() =~= r0.push(cat[k as int].name));
                assert(r0.push(cat[k as int].name) =~= names(cat).take(k as int + 1));
            }
            k += 1;
        }
        proof {
            assert(names(cat).take(cat.len() as int) =~= names(cat));
        }
        r
    }

    /// Where this manager's installed-state file lives.
    pub fn state_path(&self) -> (r: String)
        ensures
            r@ == state_path_of(self.dir()),
    {
        let mut r = self.install_dir.clone();
        r.append("/installed_packages.json");
        r
    }
}

} // verus!

verus! {

impl PackageManager {
    /// The resolution order for `root`: an iterative depth-first traversal
    /// from `root` over the catalog, recording each known name the first time
    /// it is popped, silently dropping unknown names, and returning the
    /// recorded list reversed. Equals `resolution(self.catalog(), root@)`
    /// exactly.
    pub fn resolve_dependencies(&self, root: &str) -> (r: Vec<String>)
        ensures
            r.deep_view() == resolution(self.catalog(), root@),
    {
        let ghost cat = self.packages.deep_view();
        let mut resolved: Vec<String> = Vec::new();
        let mut stack: Vec<String> = Vec::new();
        stack.push(root.to_owned());
        proof {
            assert(stack.deep_view() =~= seq![root@]);
            assert(resolved.deep_view() =~= Seq::<Seq<char>>::empty());
        }
        let ghost target = run(cat, seq![root@], Seq::<Seq<char>>::empty());
        while stack.len() != 0
            invariant
                cat == self.packages.deep_view(),
                run(cat, stack.deep_view(), resolved.deep_view()) == target,
            decreases unresolved(cat, resolved.deep_view()), stack.deep_view().len(),
        {
            let ghost st0 = stack.deep_view();
            let ghost rs0 = resolved.deep_view();
            let pkg: String = stack.pop().unwrap();
            proof {
                assert(stack.deep_view() =~= st0.drop_last());
                assert(pkg@ == st0.last());
            }
            let already = vec_contains(&resolved, &pkg);
            if !already {
                let pos = position_of(&self.packages, &pkg);
                match pos {
                    Some(i) => {
                        proof {
                            lemma_find_from_scan(cat, pkg@, i as int);
                        }
                        let ghost deps = cat[i as int].dependencies;
                        let p = &self.packages[i];
                        proof {
                            assert(p.dependencies.deep_view() == deps);
                        }
                        let ghost stbase = stack.deep_view();
                        let mut k: usize = 0;
                        while k < p.dependencies.len()
                            invariant
                                k <= p.dependencies.len(),
                                p.dependencies.deep_view() == deps,
                                stack.deep_view() == stbase + deps.take(k as int),
                            decreases p.dependencies.len() - k,
                        {
                            let ghost s0 = stack.deep_view();
                            let d = p.dependencies[k].clone();
                            stack.push(d);
                            proof {
                                assert(d@ == deps[k as int]);
                                assert(stack.deep_view() =~= s0.push(deps[k as int]));
                                assert(s0.push(deps[k as int]) =~= stbase + deps.take(k as int + 1));
                            }
                            k += 1;
                        }
                        resolved.push(pkg);
                        proof {
                            assert(deps.take(deps.len() as int) =~= deps);
                            assert(stack.deep_view() =~= st0.drop_last() + deps);
                            assert(resolved.deep_view() =~= rs0.push(st0.last()));
                            assert(run(cat, st0, rs0) == run(cat, st0.drop_last() + deps, rs0.push(st0.last())));
                            lemma_unresolved_push(cat, rs0, st0.last());
                        }
                    },
                    None => {
                        proof {
                            assert forall|j: int| 0 <= j < cat.len()
                                implies (#[trigger] cat[j]).name != pkg@ by {}
                            lemma_find_none(cat, pkg@);
                            assert(run(cat, st0, rs0) == run(cat, st0.drop_last(), rs0));
                        }
                    },
                }
            } else {
                proof {
                    assert(rs0.contains(st0.last()));
                    assert(run(cat, st0, rs0) == run(cat, st0.drop_last(), rs0));
                }
            }
        }
        proof {
            assert(stack.deep_view().len() == 0);
            assert(run(cat, stack.deep_view(), resolved.deep_view()) == resolved.deep_view());
        }
        let ghost full = resolved.deep_view();
        let mut out: Vec<String> = Vec::new();
        proof {
            assert(full.take(full.len() as int) =~= full);
            assert(out.deep_view() =~= full.skip(full.len() as int).reverse());
        }
        while resolved.len() != 0
            invariant
                resolved@.len() <= full.len(),
                resolved.deep_view() == full.take(resolved@.len() as int),
                out.deep_view() == full.skip(resolved@.len() as int).reverse(),
            decreases resolved.len(),
        {
            let ghost k = resolved@.len() as int;
            let ghost o0 = out.deep_view();
            let ghost rv0 = resolved@;
            let ghost dv0 = resolved.deep_view();
            let s = resolved.pop().unwrap();
            out.push(s);
            proof {
                assert(s == rv0[k - 1]);
                assert(dv0[k - 1] == rv0[k - 1]@);
                assert(s@ == full.take(k)[k - 1]);
                assert(s@ == full[k - 1]);
                assert(resolved.deep_view() =~= full.take(k - 1));
                assert(out.deep_view() =~= o0.push(full[k - 1]));
                assert(o0.push(full[k - 1]) =~= full.skip(k - 1).reverse());
            }
        }
        proof {
            assert(full.skip(0) =~= full);
            assert(out.deep_view() == resolution(cat, root@));
        }
        out
    }

    /// The install schedule for `name`: for every name in the resolution
    /// order, in that order, one fetch-and-extract action whose paths are
    /// derived from the record's name and version under the install
    /// directory. The catalog itself is not changed by planning.
    pub fn install_package(&self, name: &str) -> (r: Vec<InstallAction>)
        ensures
            r.deep_view() == install_actions(self.catalog(), self.dir(), name@),
    {
        let ghost cat = self.packages.deep_view();
        let ghost order = resolution(cat, name@);
        let deps = self.resolve_dependencies(name);
        let mut r: Vec<InstallAction> = Vec::new();
        proof {
            lemma_resolution_members(cat, name@);
            assert(r.deep_view() =~= install_actions(cat, self.dir(), name@).take(0));
        }
        let mut k: usize = 0;
        while k < deps.len()
            invariant
                k <= deps.len(),
                cat == self.packages.deep_view(),
                deps.deep_view() == order,
                order == resolution(cat, name@),
                forall|i: int| 0 <= i < order.len() ==> has_name(cat, #[trigger] order[i]),
                r.deep_view() == install_actions(cat, self.dir(), name@).take(k as int),
            decreases deps.len() - k,
        {
            let ghost r0 = r.deep_view();
            let dep = &deps[k];
            proof {
                assert(dep@ == order[k as int]);
            }
            let pos = position_of(&self.packages, dep);
            let i = match pos {
                Some(i) => i,
                None => {
                    proof {
                        lemma_find_none(cat, dep@);
                        assert(has_name(cat, order[k as int]));
                        assert(false);
                    }
                    // unreachable: every resolved name is on file
                    vstd::pervasive::unreached()
                },
            };
            proof {
                lemma_find_from_scan(cat, dep@, i as int);
            }
            let p = &self.packages[i];
            let mut archive_path = self.install_dir.clone();
            archive_path.append("/");
            archive_path.append(dep.as_str());
            archive_path.append("-");
            archive_path.append(p.version.as_str());
            archive_path.append(".zip");
            let mut extract_dir = self.install_dir.clone();
            extract_dir.append("/");
            extract_dir.append(dep.as_str());
            let action = InstallAction {
                name: dep.clone(),
                url: p.url.clone(),
                archive_path,
                extract_dir,
            };
            proof {
                assert(action@ =~= action_for(cat, self.dir(), order[k as int]));
            }
            r.push(action);
            k += 1;
            proof {
                assert(r.deep_view() =~= r0.push(action_for(cat, self.dir(), order[k as int - 1])));
                assert(r.deep_view() =~= install_actions(cat, self.dir(), name@).take(k as int));
            }
        }
        proof {
            assert(install_actions(cat, self.dir(), name@).take(deps@.len() as int)
                =~= install_actions(cat, self.dir(), name@));
        }
        r
    }
}

} // verus!

use crate::resolve::add_all;

verus! {

/// The bootstrap catalog: the fixed records every session starts from.
pub open spec fn initial_packages() -> Seq<PackageView> {
    seq![
        PackageView {
            name: "yama"@,
            version: "1.0"@,
            dependencies: seq!["libfoo"@],
            url: "https://example.com/yama-1.0.zip"@,
        },
        PackageView {
            name: "libfoo"@,
            version: "1.2"@,
            dependencies: seq!["libbar"@],
            url: "https://example.com/libfoo-1.2.zip"@,
        },
        PackageView {
            name: "libbar"@,
            version: "2.0"@,
            dependencies: Seq::<Seq<char>>::empty(),
            url: "https://example.com/libbar-2.0.zip"@,
        },
    ]
}

/// Seeds the bootstrap records into the catalog, first to last, as if each
/// were added by `add_package`.
pub fn add_initial_packages(pm: &mut PackageManager) -> (r: Result<(), PkgError>)
    ensures
        r is Ok,
        final(pm).catalog() == add_all(old(pm).catalog(), initial_packages()),
        final(pm).dir() == old(pm).dir(),
{
    let ghost cat = pm.catalog();
    let ghost ps = initial_packages();
    let mut deps1: Vec<String> = Vec::new();
    deps1.push("libfoo".to_owned());
    let p1 = Package {
        name: "yama".to_owned(),
        version: "1.0".to_owned(),
        dependencies: deps1,
        url: "https://example.com/yama-1.0.zip".to_owned(),
    };
    let mut deps2: Vec<String> = Vec::new();
    deps2.push("libbar".to_owned());
    let p2 = Package {
        name: "libfoo".to_owned(),
        version: "1.2".to_owned(),
        dependencies: deps2,
        url: "https://example.com/libfoo-1.2.zip".to_owned(),
    };
    let deps3: Vec<String> = Vec::new();
    let p3 = Package {
        name: "libbar".to_owned(),
        version: "2.0".to_owned(),
        dependencies: deps3,
        url: "https://example.com/libbar-2.0.zip".to_owned(),
    };
    proof {
        assert(p1@ =~~= ps[0]);
        assert(p2@ =~~= ps[1]);
        assert(p3@ =~~= ps[2]);
    }
    pm.add_package(p1);
    pm.add_package(p2);
    pm.add_package(p3);
    proof {
        let c1 = insert_pkg(cat, ps[0]);
        let c2 = insert_pkg(c1, ps[1]);
        let c3 = insert_pkg(c2, ps[2]);
        assert(ps.drop_first()[0] == ps[1]);
        assert(ps.drop_first().drop_first()[0] == ps[2]);
        assert(ps.drop_first().drop_first().drop_first().len() == 0);
        assert(add_all(c2, ps.drop_first().drop_first()) == add_all(c3, ps.drop_first().drop_first().drop_first()));
        assert(add_all(c1, ps.drop_first()) == add_all(c2, ps.drop_first().drop_first()));
        assert(add_all(cat, ps) == add_all(c1, ps.drop_first()));
        assert(pm.catalog() == c3);
    }
    Ok(())
}

} // verus!

use crate::codec::{parse_packages, parse_state, render_packages, render_state};

verus! {

impl PackageManager {
    /// The durable form of the catalog: its records rendered as the state
    /// file's text, in catalog order. The caller writes it to the state path.
    pub fn save_installed_packages(&self) -> (r: String)
        ensures
            r@ == render_state(self.catalog()),
    {
        render_packages(&self.packages)
    }

    /// Reads state-file text back into the catalog: each parsed record is
    /// added as by `add_package`, first to last. Malformed text fails with a
    /// serialization error and changes nothing.
    pub fn load_installed_packages(&mut self, text: &str) -> (r: Result<(), PkgError>)
        ensures
            r is Ok <==> parse_state(text@) is Some,
            match r {
                Ok(()) => final(self).catalog() == add_all(
                    old(self).catalog(),
                    parse_state(text@)->Some_0,
                ) && final(self).dir() == old(self).dir(),
                Err(e) => e == PkgError::Serialization && *final(self) == *old(self),
            },
    {
        let ghost cat0 = self.catalog();
        let ghost pkgs = parse_state(text@)->Some_0;
        let mut loaded = match parse_packages(text) {
            Ok(v) => v,
            Err(e) => {
                return Err(e);
            },
        };
        proof {
            assert(loaded.deep_view() == pkgs);
        }
        while loaded.len() != 0
            invariant
                add_all(self.catalog(), loaded.deep_view()) == add_all(cat0, pkgs),
                self.dir() == old(self).dir(),
            decreases loaded.len(),
        {
            let ghost lv0 = loaded.deep_view();
            let ghost cur = self.catalog();
            let p = loaded.remove(0);
            proof {
                assert(p@ == lv0[0]);
                assert(loaded.deep_view() =~= lv0.drop_first());
                assert(add_all(cur, lv0) == add_all(insert_pkg(cur, lv0[0]), lv0.drop_first()));
            }
            self.add_package(p);
        }
        proof {
            assert(loaded.deep_view() =~= Seq::<PackageView>::empty());
            assert(add_all(self.catalog(), loaded.deep_view()) == self.catalog());
        }
        Ok(())
    }
}

} // verus!

//! Dependency resolution: walking the depends-on relation recorded in a
//! query table, with cycle and diamond suppression through a visited list.
//!
//! The table maps a package name to the direct dependency names its query
//! returned; a name without an entry is one the query service did not know
//! (or a leaf whose query was never needed). Resolution visits names depth
//! first, records each name in first-discovery order exactly once, and builds
//! a tree mirroring the relation, where an already-visited name keeps an
//! empty child list.

use vstd::prelude::*;
use vstd::set_lib::lemma_len_subset;
use vstd::string::StrSliceExecFns;
use vstd::string::StringExecFns;

verus! {

/// One package in the discovered dependency relation: its name and the
/// packages it directly depends on.
#[derive(Debug, PartialEq, Eq)]
pub struct AptDepends {
    pub name: String,
    pub depends: Vec<AptDepends>,
}

/// The mathematical shape of a dependency tree: a name and child trees.
pub struct DepTree {
    pub name: Seq<char>,
    pub children: Seq<DepTree>,
}

/// Whether the ghost tree `v` is the shape of the executable tree `t`.
pub open spec fn tree_abs(t: AptDepends, v: DepTree) -> bool
    decreases t,
{
    &&& v.name == t.name@
    &&& v.children.len() == t.depends.len()
    &&& forall|i: int|
        0 <= i < t.depends.len() ==> tree_abs(t.depends[i], #[trigger] v.children[i])
}

/// Whether the ghost trees `vs` are the shapes of the executable trees `ts`.
pub open spec fn trees_abs(ts: Seq<AptDepends>, vs: Seq<DepTree>) -> bool {
    &&& vs.len() == ts.len()
    &&& forall|i: int| 0 <= i < ts.len() ==> tree_abs(ts[i], #[trigger] vs[i])
}

impl AptDepends {
    /// A tree node with the given name and children.
    pub fn new(name: &str, depends: Vec<AptDepends>) -> (r: AptDepends)
        ensures
            r.name@ == name@,
            r.depends == depends,
    {
        AptDepends { name: name.to_owned(), depends }
    }
}

/// An association from package name to the direct dependency names that the
/// query service reported for it. The first entry for a name wins.
pub struct DepTable {
    pub entries: Vec<(String, Vec<String>)>,
}

/// The direct dependencies recorded for `name`: the first matching entry.
pub open spec fn lookup_spec(entries: Seq<(Seq<char>, Seq<Seq<char>>)>, name: Seq<char>) -> Option<
    Seq<Seq<char>>,
>
    decreases entries.len(),
{
    if entries.len() == 0 {
        None
    } else if entries[0].0 == name {
        Some(entries[0].1)
    } else {
        lookup_spec(entries.skip(1), name)
    }
}

/// The set of names that have an entry.
pub open spec fn keys_spec(entries: Seq<(Seq<char>, Seq<Seq<char>>)>) -> Set<Seq<char>>
    decreases entries.len(),
{
    if entries.len() == 0 {
        Set::empty()
    } else {
        keys_spec(entries.skip(1)).insert(entries[0].0)
    }
}

/// The key set is finite, and holds a name exactly when lookup finds one.
pub proof fn lemma_keys_spec(entries: Seq<(Seq<char>, Seq<Seq<char>>)>)
    ensures
        keys_spec(entries).finite(),
        forall|n: Seq<char>| keys_spec(entries).contains(n) <==> lookup_spec(entries, n) is Some,
    decreases entries.len(),
{
    if entries.len() == 0 {
    } else {
        lemma_keys_spec(entries.skip(1));
    }
}

proof fn lemma_lookup_skip(entries: Seq<(Seq<char>, Seq<Seq<char>>)>, name: Seq<char>, i: int)
    requires
        0 <= i <= entries.len(),
        forall|k: int| 0 <= k < i ==> entries[k].0 != name,
    ensures
        lookup_spec(entries, name) == lookup_spec(entries.skip(i), name),
    decreases i,
{
    if i > 0 {
        lemma_lookup_skip(entries.skip(1), name, i - 1);
        assert(entries.skip(1).skip(i - 1) =~= entries.skip(i));
    } else {
        assert(entries.skip(0) =~= entries);
    }
}

impl DepTable {
    /// An empty table.
    pub fn new() -> (r: DepTable)
        ensures
            r.entries.deep_view() == Seq::<(Seq<char>, Seq<Seq<char>>)>::empty(),
    {
        let r = DepTable { entries: Vec::new() };
        proof {
            assert(r.entries.deep_view() =~= Seq::<(Seq<char>, Seq<Seq<char>>)>::empty());
        }
        r
    }

    /// Record the direct dependencies reported for a name.
    pub fn insert(&mut self, name: String, deps: Vec<String>)
        ensures
            final(self).entries.deep_view() == old(self).entries.deep_view().push(
                (name@, deps.deep_view()),
            ),
    {
        let ghost old_dv = self.entries.deep_view();
        let ghost pair_dv = (name@, deps.deep_view());
        self.entries.push((name, deps));
        proof {
            assert(self.entries.deep_view() =~= old_dv.push(pair_dv));
        }
    }

    /// The direct dependencies recorded for `name`, if any entry holds them.
    pub fn lookup(&self, name: &str) -> (r: Option<&Vec<String>>)
        ensures
            match r {
                Some(deps) => lookup_spec(self.entries.deep_view(), name@) == Some(
                    deps.deep_view(),
                ),
                None => lookup_spec(self.entries.deep_view(), name@) is None,
            },
    {
        let n = self.entries.len();
        let mut i: usize = 0;
        while i < n
            invariant
                0 <= i <= n,
                n == self.entries.len(),
                forall|k: int| 0 <= k < i ==> self.entries.deep_view()[k].0 != name@,
            decreases n - i,
        {
            if crate::strutil::str_eq(self.entries[i].0.as_str(), name) {
                proof {
                    lemma_lookup_skip(self.entries.deep_view(), name@, i as int);
                    assert(self.entries.deep_view().skip(i as int)[0]
                        == self.entries.deep_view()[i as int]);
                }
                return Some(&self.entries[i].1);
            }
            i = i + 1;
        }
        proof {
            lemma_lookup_skip(self.entries.deep_view(), name@, n as int);
            assert(self.entries.deep_view().skip(n as int).len() == 0);
        }
        None
    }

    /// Whether the table holds an entry for `name`.
    pub fn contains_name(&self, name: &str) -> (r: bool)
        ensures
            r == keys_spec(self.entries.deep_view()).contains(name@),
    {
        proof {
            lemma_keys_spec(self.entries.deep_view());
        }
        match self.lookup(name) {
            Some(_) => true,
            None => false,
        }
    }
}

/// How many table keys the visited list has not reached yet. Resolution
/// shrinks this measure every time it follows a name with an entry.
pub open spec fn unvisited(
    entries: Seq<(Seq<char>, Seq<Seq<char>>)>,
    visited: Seq<Seq<char>>,
) -> nat {
    keys_spec(entries).difference(visited.to_set()).len()
}

proof fn lemma_unvisited_mono(
    entries: Seq<(Seq<char>, Seq<Seq<char>>)>,
    v1: Seq<Seq<char>>,
    v2: Seq<Seq<char>>,
)
    requires
        v1.to_set().subset_of(v2.to_set()),
    ensures
        unvisited(entries, v2) <= unvisited(entries, v1),
{
    lemma_keys_spec(entries);
    let d1 = keys_spec(entries).difference(v1.to_set());
    let d2 = keys_spec(entries).difference(v2.to_set());
    assert(d2.subset_of(d1));
    lemma_len_subset(d2, d1);
}

proof fn lemma_unvisited_push(
    entries: Seq<(Seq<char>, Seq<Seq<char>>)>,
    visited: Seq<Seq<char>>,
    name: Seq<char>,
)
    requires
        keys_spec(entries).contains(name),
        !visited.to_set().contains(name),
    ensures
        unvisited(entries, visited.push(name)) + 1 == unvisited(entries, visited),
{
    lemma_keys_spec(entries);
    let d1 = keys_spec(entries).difference(visited.to_set());
    let d2 = keys_spec(entries).difference(visited.push(name).to_set());
    visited.lemma_push_to_set_commute(name);
    assert(d2 =~= d1.remove(name));
    assert(d1.contains(name));
    assert(d1.finite());
    assert(d1.remove(name).len() == d1.len() - 1);
}

/// The direct dependencies recorded for `name`, or none for an unknown name.
pub open spec fn deps_of(entries: Seq<(Seq<char>, Seq<Seq<char>>)>, name: Seq<char>) -> Seq<
    Seq<char>,
> {
    match lookup_spec(entries, name) {
        Some(d) => d,
        None => Seq::empty(),
    }
}

/// Resolution of one name: an already-visited name yields no children and
/// leaves the visited list unchanged; a new name is appended to the visited
/// list and its recorded dependencies are resolved in order. The fuel bounds
/// the depth of fresh visits; with enough fuel (see `lemma_resolve_one_some`)
/// resolution never runs out.
pub open spec fn resolve_one_spec(
    entries: Seq<(Seq<char>, Seq<Seq<char>>)>,
    name: Seq<char>,
    visited: Seq<Seq<char>>,
    fuel: nat,
) -> Option<(Seq<DepTree>, Seq<Seq<char>>)>
    decreases fuel, 0nat, 1nat,
{
    if visited.contains(name) {
        Some((Seq::empty(), visited))
    } else if fuel == 0 {
        None
    } else {
        resolve_list_spec(entries, deps_of(entries, name), visited.push(name), (fuel - 1) as nat)
    }
}

/// Resolution of a list of dependency names in order, threading the visited
/// list through, and producing one tree per name.
pub open spec fn resolve_list_spec(
    entries: Seq<(Seq<char>, Seq<Seq<char>>)>,
    deps: Seq<Seq<char>>,
    visited: Seq<Seq<char>>,
    fuel: nat,
) -> Option<(Seq<DepTree>, Seq<Seq<char>>)>
    decreases fuel, deps.len(), 0nat,
{
    if deps.len() == 0 {
        Some((Seq::empty(), visited))
    } else {
        match resolve_one_spec(entries, deps[0], visited, fuel) {
            None => None,
            Some(r1) => match resolve_list_spec(entries, deps.skip(1), r1.1, fuel) {
                None => None,
                Some(r2) => Some(
                    (seq![DepTree { name: deps[0], children: r1.0 }] + r2.0, r2.1),
                ),
            },
        }
    }
}

/// No name appears twice.
pub open spec fn no_dup_names(s: Seq<Seq<char>>) -> bool {
    forall|i: int, j: int| 0 <= i < j < s.len() ==> s[i] != s[j]
}

/// Structural facts about resolution: the visited list only grows (the input
/// is a prefix of the output), a fresh name is appended right away, and a
/// visited list without duplicates stays without duplicates.
pub proof fn lemma_resolve_one_props(
    entries: Seq<(Seq<char>, Seq<Seq<char>>)>,
    name: Seq<char>,
    visited: Seq<Seq<char>>,
    fuel: nat,
)
    ensures
        resolve_one_spec(entries, name, visited, fuel) matches Some(r) ==> {
            &&& visited.is_prefix_of(r.1)
            &&& !visited.contains(name) ==> visited.push(name).is_prefix_of(r.1)
            &&& no_dup_names(visited) ==> no_dup_names(r.1)
        },
    decreases fuel, 0nat, 1nat,
{
    if visited.contains(name) {
        assert(visited.is_prefix_of(visited)) by {
            assert(visited.take(visited.len() as int) =~= visited);
        }
    } else if fuel == 0 {
    } else {
        let v1 = visited.push(name);
        lemma_resolve_list_props(entries, deps_of(entries, name), v1, (fuel - 1) as nat);
        match resolve_one_spec(entries, name, visited, fuel) {
            Some(r) => {
                assert(v1.is_prefix_of(r.1));
                assert(visited.is_prefix_of(v1)) by {
                    assert(v1.take(visited.len() as int) =~= visited);
                }
                lemma_prefix_trans(visited, v1, r.1);
                if no_dup_names(visited) {
                    assert(no_dup_names(v1)) by {
                        assert(forall|i: int|
                            0 <= i < visited.len() ==> visited[i] == v1[i] && v1[i] != name);
                    }
                }
            },
            None => {},
        }
    }
}

/// See `lemma_resolve_one_props`.
pub proof fn lemma_resolve_list_props(
    entries: Seq<(Seq<char>, Seq<Seq<char>>)>,
    deps: Seq<Seq<char>>,
    visited: Seq<Seq<char>>,
    fuel: nat,
)
    ensures
        resolve_list_spec(entries, deps, visited, fuel) matches Some(r) ==> {
            &&& visited.is_prefix_of(r.1)
            &&& no_dup_names(visited) ==> no_dup_names(r.1)
        },
    decreases fuel, deps.len(), 0nat,
{
    if deps.len() == 0 {
        assert(visited.is_prefix_of(visited)) by {
            assert(visited.take(visited.len() as int) =~= visited);
        }
    } else {
        lemma_resolve_one_props(entries, deps[0], visited, fuel);
        match resolve_one_spec(entries, deps[0], visited, fuel) {
            Some(r1) => {
                lemma_resolve_list_props(entries, deps.skip(1), r1.1, fuel);
                match resolve_list_spec(entries, deps.skip(1), r1.1, fuel) {
                    Some(r2) => {
                        lemma_prefix_trans(visited, r1.1, r2.1);
                    },
                    None => {},
                }
            },
            None => {},
        }
    }
}

proof fn lemma_prefix_trans(a: Seq<Seq<char>>, b: Seq<Seq<char>>, c: Seq<Seq<char>>)
    requires
        a.is_prefix_of(b),
        b.is_prefix_of(c),
    ensures
        a.is_prefix_of(c),
{
    assert(c.take(a.len() as int) =~= b.take(a.len() as int));
}

proof fn lemma_prefix_set_mono(a: Seq<Seq<char>>, b: Seq<Seq<char>>)
    requires
        a.is_prefix_of(b),
    ensures
        a.to_set().subset_of(b.to_set()),
{
    assert forall|x: Seq<char>| a.to_set().contains(x) implies b.to_set().contains(x) by {
        let i = choose|i: int| 0 <= i < a.len() && a[i] == x;
        assert(b[i] == a[i]);
    }
}

/// With fuel at least one more than the count of unreached table keys,
/// resolution never runs out of fuel.
pub proof fn lemma_resolve_one_some(
    entries: Seq<(Seq<char>, Seq<Seq<char>>)>,
    name: Seq<char>,
    visited: Seq<Seq<char>>,
    fuel: nat,
)
    requires
        fuel >= unvisited(entries, visited) + 1,
    ensures
        resolve_one_spec(entries, name, visited, fuel) is Some,
    decreases fuel, 0nat, 1nat,
{
    if visited.contains(name) {
    } else {
        let v1 = visited.push(name);
        lemma_keys_spec(entries);
        match lookup_spec(entries, name) {
            Some(_) => {
                assert(!visited.to_set().contains(name));
                lemma_unvisited_push(entries, visited, name);
                lemma_resolve_list_some(entries, deps_of(entries, name), v1, (fuel - 1) as nat);
            },
            None => {
                assert(deps_of(entries, name).len() == 0);
            },
        }
    }
}

/// See `lemma_resolve_one_some`.
pub proof fn lemma_resolve_list_some(
    entries: Seq<(Seq<char>, Seq<Seq<char>>)>,
    deps: Seq<Seq<char>>,
    visited: Seq<Seq<char>>,
    fuel: nat,
)
    requires
        fuel >= unvisited(entries, visited) + 1,
    ensures
        resolve_list_spec(entries, deps, visited, fuel) is Some,
    decreases fuel, deps.len(), 0nat,
{
    if deps.len() == 0 {
    } else {
        lemma_resolve_one_some(entries, deps[0], visited, fuel);
        lemma_resolve_one_props(entries, deps[0], visited, fuel);
        match resolve_one_spec(entries, deps[0], visited, fuel) {
            Some(r1) => {
                lemma_prefix_set_mono(visited, r1.1);
                lemma_unvisited_mono(entries, visited, r1.1);
                lemma_resolve_list_some(entries, deps.skip(1), r1.1, fuel);
            },
            None => {},
        }
    }
}

/// Any two sufficient fuel values give the same resolution result.
pub proof fn lemma_resolve_one_fuel(
    entries: Seq<(Seq<char>, Seq<Seq<char>>)>,
    name: Seq<char>,
    visited: Seq<Seq<char>>,
    f1: nat,
    f2: nat,
)
    requires
        f1 >= unvisited(entries, visited) + 1,
        f2 >= unvisited(entries, visited) + 1,
    ensures
        resolve_one_spec(entries, name, visited, f1) == resolve_one_spec(
            entries,
            name,
            visited,
            f2,
        ),
    decreases f1 + f2, 0nat, 1nat,
{
    if visited.contains(name) {
    } else {
        let v1 = visited.push(name);
        lemma_keys_spec(entries);
        match lookup_spec(entries, name) {
            Some(_) => {
                assert(!visited.to_set().contains(name));
                lemma_unvisited_push(entries, visited, name);
                lemma_resolve_list_fuel(
                    entries,
                    deps_of(entries, name),
                    v1,
                    (f1 - 1) as nat,
                    (f2 - 1) as nat,
                );
            },
            None => {
                assert(deps_of(entries, name).len() == 0);
            },
        }
    }
}

/// See `lemma_resolve_one_fuel`.
pub proof fn lemma_resolve_list_fuel(
    entries: Seq<(Seq<char>, Seq<Seq<char>>)>,
    deps: Seq<Seq<char>>,
    visited: Seq<Seq<char>>,
    f1: nat,
    f2: nat,
)
    requires
        f1 >= unvisited(entries, visited) + 1,
        f2 >= unvisited(entries, visited) + 1,
    ensures
        resolve_list_spec(entries, deps, visited, f1) == resolve_list_spec(
            entries,
            deps,
            visited,
            f2,
        ),
    decreases f1 + f2, deps.len(), 0nat,
{
    if deps.len() == 0 {
    } else {
        lemma_resolve_one_fuel(entries, deps[0], visited, f1, f2);
        lemma_resolve_one_props(entries, deps[0], visited, f1);
        match resolve_one_spec(entries, deps[0], visited, f1) {
            Some(r1) => {
                lemma_prefix_set_mono(visited, r1.1);
                lemma_unvisited_mono(entries, visited, r1.1);
                lemma_resolve_list_fuel(entries, deps.skip(1), r1.1, f1, f2);
            },
            None => {},
        }
    }
}

/// Resolution of one name, with the canonical fuel: the result the
/// executable resolver is proved to return.
pub open spec fn spec_resolve(
    entries: Seq<(Seq<char>, Seq<Seq<char>>)>,
    name: Seq<char>,
    visited: Seq<Seq<char>>,
) -> (Seq<DepTree>, Seq<Seq<char>>) {
    match resolve_one_spec(entries, name, visited, unvisited(entries, visited) + 1) {
        Some(r) => r,
        None => (Seq::empty(), Seq::empty()),
    }
}

/// Resolution from a root name with an empty visited list: the root's tree
/// and the complete resolution order.
pub open spec fn spec_resolve_root(
    entries: Seq<(Seq<char>, Seq<Seq<char>>)>,
    name: Seq<char>,
) -> (DepTree, Seq<Seq<char>>) {
    let r = spec_resolve(entries, name, Seq::empty());
    (DepTree { name, children: r.0 }, r.1)
}

/// Whether a list of names holds `name`.
pub fn vec_contains_name(v: &Vec<String>, name: &str) -> (r: bool)
    ensures
        r == v.deep_view().contains(name@),
{
    let n = v.len();
    let mut i: usize = 0;
    while i < n
        invariant
            0 <= i <= n,
            n == v.len(),
            forall|k: int| 0 <= k < i ==> v.deep_view()[k] != name@,
        decreases n - i,
    {
        if crate::strutil::str_eq(v[i].as_str(), name) {
            proof {
                assert(v.deep_view()[i as int] == name@);
            }
            return true;
        }
        i = i + 1;
    }
    proof {
        assert(forall|k: int| 0 <= k < v.deep_view().len() ==> v.deep_view()[k] != name@);
    }
    false
}

/// Resolve one package name against the table, visiting it and its recorded
/// dependencies depth first; names already on the visited list contribute no
/// children and are not followed again.
pub fn resolve_depends(table: &DepTable, package_name: &str, packages_vec: Vec<String>) -> (r: (
    Vec<AptDepends>,
    Vec<String>,
))
    ensures
        ({
            let s = spec_resolve(table.entries.deep_view(), package_name@, packages_vec.deep_view());
            &&& resolve_one_spec(
                table.entries.deep_view(),
                package_name@,
                packages_vec.deep_view(),
                unvisited(table.entries.deep_view(), packages_vec.deep_view()) + 1,
            ) is Some
            &&& trees_abs(r.0@, s.0)
            &&& r.1.deep_view() == s.1
        }),
    decreases unvisited(table.entries.deep_view(), packages_vec.deep_view()), 0nat, 1nat,
{
    let ghost tbl = table.entries.deep_view();
    let ghost v0 = packages_vec.deep_view();
    let ghost fuel = (unvisited(tbl, v0) + 1) as nat;
    if vec_contains_name(&packages_vec, package_name) {
        proof {
            assert(trees_abs(Seq::<AptDepends>::empty(), Seq::<DepTree>::empty()));
        }
        let r = (Vec::new(), packages_vec);
        proof {
            assert(r.0@ =~= Seq::<AptDepends>::empty());
        }
        return r;
    }
    let mut v = packages_vec;
    v.push(package_name.to_owned());
    proof {
        assert(v.deep_view() =~= v0.push(package_name@));
        lemma_keys_spec(tbl);
    }
    match table.lookup(package_name) {
        None => {
            proof {
                assert(deps_of(tbl, package_name@).len() == 0);
                assert(resolve_one_spec(tbl, package_name@, v0, fuel) == Some(
                    (Seq::<DepTree>::empty(), v0.push(package_name@)),
                ));
                assert(trees_abs(Seq::<AptDepends>::empty(), Seq::<DepTree>::empty()));
            }
            let r = (Vec::new(), v);
            proof {
                assert(r.0@ =~= Seq::<AptDepends>::empty());
            }
            r
        },
        Some(deps) => {
            proof {
                assert(!v0.to_set().contains(package_name@));
                lemma_unvisited_push(tbl, v0, package_name@);
                assert(deps.deep_view().skip(0) =~= deps_of(tbl, package_name@));
            }
            let (trees, v2) = resolve_list(table, deps, 0, v);
            proof {
                assert(unvisited(tbl, v0.push(package_name@)) + 1 == fuel - 1);
            }
            (trees, v2)
        },
    }
}

/// Resolve the dependency names `deps[i..]` in order, threading the visited
/// list through and producing one tree per name.
fn resolve_list(table: &DepTable, deps: &Vec<String>, i: usize, visited: Vec<String>) -> (r: (
    Vec<AptDepends>,
    Vec<String>,
))
    requires
        i <= deps.len(),
    ensures
        ({
            let s = resolve_list_spec(
                table.entries.deep_view(),
                deps.deep_view().skip(i as int),
                visited.deep_view(),
                unvisited(table.entries.deep_view(), visited.deep_view()) + 1,
            );
            &&& s is Some
            &&& s matches Some(p) ==> trees_abs(r.0@, p.0) && r.1.deep_view() == p.1
        }),
    decreases
            unvisited(table.entries.deep_view(), visited.deep_view()),
            deps.len() - i,
            1nat,
{
    let ghost tbl = table.entries.deep_view();
    let ghost v0 = visited.deep_view();
    let ghost fuel = (unvisited(tbl, v0) + 1) as nat;
    let ghost dtail = deps.deep_view().skip(i as int);
    if i == deps.len() {
        proof {
            assert(dtail.len() == 0);
            assert(trees_abs(Seq::<AptDepends>::empty(), Seq::<DepTree>::empty()));
        }
        let r = (Vec::new(), visited);
        proof {
            assert(r.0@ =~= Seq::<AptDepends>::empty());
        }
        r
    } else {
        let name = &deps[i];
        proof {
            assert(dtail[0] == deps.deep_view()[i as int]);
        }
        let (children, v1) = resolve_depends(table, name.as_str(), visited);
        let ghost s1 = spec_resolve(tbl, name@, v0);
        proof {
            lemma_resolve_one_props(tbl, name@, v0, fuel);
            lemma_prefix_set_mono(v0, s1.1);
            lemma_unvisited_mono(tbl, v0, s1.1);
        }
        let node = AptDepends { name: name.clone(), depends: children };
        let (rest, v2) = resolve_list(table, deps, i + 1, v1);
        proof {
            lemma_resolve_list_fuel(
                tbl,
                deps.deep_view().skip(i + 1),
                s1.1,
                (unvisited(tbl, s1.1) + 1) as nat,
                fuel,
            );
            assert(dtail.skip(1) =~= deps.deep_view().skip(i + 1));
        }
        let mut out: Vec<AptDepends> = Vec::new();
        out.push(node);
        let mut rest_mut = rest;
        out.append(&mut rest_mut);
        proof {
            let s = resolve_list_spec(tbl, dtail, v0, fuel);
            assert(s is Some);
            match s {
                Some(p) => {
                    assert(p.0.len() >= 1);
                    assert(tree_abs(out@[0], p.0[0]));
                    assert(trees_abs(out@, p.0)) by {
                        assert(forall|k: int|
                            0 <= k < out@.len() ==> tree_abs(out@[k], #[trigger] p.0[k]));
                    }
                },
                None => {},
            }
        }
        (out, v2)
    }
}

/// Resolve a root package: its dependency tree and the resolution order,
/// which records every name reached, the root first, each exactly once.
pub fn resolve_depends_root(table: &DepTable, package_name: &str) -> (r: (AptDepends, Vec<String>))
    ensures
        ({
            let s = spec_resolve_root(table.entries.deep_view(), package_name@);
            &&& tree_abs(r.0, s.0)
            &&& r.1.deep_view() == s.1
        }),
{
    let empty: Vec<String> = Vec::new();
    proof {
        assert(empty.deep_view() =~= Seq::<Seq<char>>::empty());
    }
    let (children, order) = resolve_depends(table, package_name, empty);
    let root = AptDepends::new(package_name, children);
    (root, order)
}

/// Record one query response in the table. A response that is empty after
/// trimming means the query service does not know the package: no entry is
/// recorded, so the name stays an unknown leaf and a root with such a
/// response is reported as nonexistent. Any other response is parsed and its
/// direct dependency names are recorded.
pub fn record_query(table: &mut DepTable, name: String, output: &str)
    ensures
        crate::strutil::trim_spec(output@).len() == 0 ==> final(table).entries.deep_view() == old(
            table,
        ).entries.deep_view(),
        crate::strutil::trim_spec(output@).len() != 0 ==> final(table).entries.deep_view() == old(
            table,
        ).entries.deep_view().push((name@, crate::parse::parse_depends_spec(output@))),
{
    let trimmed = crate::strutil::trim_str(output);
    if trimmed.as_str().unicode_len() == 0 {
        return ;
    }
    let deps = crate::parse::parse_depends_output(output);
    table.insert(name, deps);
}

/// The first name of the resolution order whose query response has not been
/// recorded as handled yet, if any: the next name the table-building loop
/// queries.
pub open spec fn first_unqueried_spec(order: Seq<Seq<char>>, queried: Seq<Seq<char>>) -> Option<
    Seq<char>,
>
    decreases order.len(),
{
    if order.len() == 0 {
        None
    } else if queried.contains(order[0]) {
        first_unqueried_spec(order.skip(1), queried)
    } else {
        Some(order[0])
    }
}

proof fn lemma_first_unqueried_skip(order: Seq<Seq<char>>, queried: Seq<Seq<char>>, i: int)
    requires
        0 <= i <= order.len(),
        forall|k: int| 0 <= k < i ==> queried.contains(#[trigger] order[k]),
    ensures
        first_unqueried_spec(order, queried) == first_unqueried_spec(order.skip(i), queried),
    decreases i,
{
    if i > 0 {
        assert(forall|k: int|
            0 <= k < i - 1 ==> order.skip(1)[k] == order[k + 1] && queried.contains(
                #[trigger] order.skip(1)[k],
            ));
        lemma_first_unqueried_skip(order.skip(1), queried, i - 1);
        assert(order.skip(1).skip(i - 1) =~= order.skip(i));
    } else {
        assert(order.skip(0) =~= order);
    }
}

/// The first name of `order` that is not on the `queried` list, if any.
pub fn next_unqueried(order: &Vec<String>, queried: &Vec<String>) -> (r: Option<String>)
    ensures
        match r {
            Some(n) => first_unqueried_spec(order.deep_view(), queried.deep_view()) == Some(n@),
            None => first_unqueried_spec(order.deep_view(), queried.deep_view()) is None,
        },
{
    let n = order.len();
    let mut i: usize = 0;
    while i < n
        invariant
            0 <= i <= n,
            n == order.len(),
            forall|k: int|
                0 <= k < i ==> queried.deep_view().contains(#[trigger] order.deep_view()[k]),
        decreases n - i,
    {
        if !vec_contains_name(queried, order[i].as_str()) {
            proof {
                lemma_first_unqueried_skip(order.deep_view(), queried.deep_view(), i as int);
                assert(order.deep_view().skip(i as int)[0] == order.deep_view()[i as int]);
            }
            return Some(order[i].clone());
        }
        i = i + 1;
    }
    proof {
        lemma_first_unqueried_skip(order.deep_view(), queried.deep_view(), n as int);
        assert(order.deep_view().skip(n as int).len() == 0);
    }
    None
}

/// Law: on every dependency table — cyclic, diamond-shaped or otherwise —
/// resolution terminates with an order that starts at the root and holds
/// each reached package name exactly once; in particular a name shared by
/// several positions of the relation is followed (queried) only once.
pub proof fn lemma_resolution_order_unique(
    entries: Seq<(Seq<char>, Seq<Seq<char>>)>,
    root: Seq<char>,
)
    ensures
        ({
            let order = spec_resolve_root(entries, root).1;
            &&& no_dup_names(order)
            &&& order.len() >= 1
            &&& order[0] == root
        }),
{
    let v0 = Seq::<Seq<char>>::empty();
    let fuel = (unvisited(entries, v0) + 1) as nat;
    lemma_resolve_one_some(entries, root, v0, fuel);
    lemma_resolve_one_props(entries, root, v0, fuel);
    assert(!v0.contains(root));
    match resolve_one_spec(entries, root, v0, fuel) {
        Some(r) => {
            let p = v0.push(root);
            assert(p.is_prefix_of(r.1));
            assert(r.1.take(p.len() as int)[0] == r.1[0]);
            assert(p[0] == root);
            assert(no_dup_names(v0));
        },
        None => {},
    }
}

/// Law: resolution is a function of the dependency table and the root name
/// alone, so resolving the same root twice against the same recorded
/// query responses yields the same tree and the same order.
pub proof fn lemma_resolution_idempotent(
    entries: Seq<(Seq<char>, Seq<Seq<char>>)>,
    root: Seq<char>,
    first: (DepTree, Seq<Seq<char>>),
    second: (DepTree, Seq<Seq<char>>),
)
    requires
        first == spec_resolve_root(entries, root),
        second == spec_resolve_root(entries, root),
    ensures
        first == second,
{
}

} // verus!

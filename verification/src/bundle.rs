//! Pure planning steps of packing and installing a bundle: the bundle and
//! digest file names, the staging directory derived from a bundle file name,
//! selecting a downloaded artifact by its name pattern, assembling the
//! artifact map, and the ordered installation plan replayed from a manifest.

use vstd::prelude::*;
use crate::manifest::SerdeConfig;
use crate::strutil::split_spec;
use crate::strutil::split_str;
use crate::strutil::str_eq;
use crate::strutil::starts_with_str;
use crate::strutil::ends_with_str;
use vstd::string::StrSliceExecFns;
use vstd::string::StringExecFns;

verus! {

/// The bundle file name: the root package name with the bundle extension.
pub fn bundle_file_name(package_name: &str) -> (r: String)
    ensures
        r@ == package_name@ + ".aoit"@,
{
    let mut s = package_name.to_owned();
    s.append(".aoit");
    s
}

/// The digest file name: the bundle file name with the digest extension.
pub fn digest_file_name(bundle_name: &str) -> (r: String)
    ensures
        r@ == bundle_name@ + ".sha256"@,
{
    let mut s = bundle_name.to_owned();
    s.append(".sha256");
    s
}

/// The name of the manifest file inside a bundle.
pub fn manifest_file_name() -> (r: String)
    ensures
        r@ == "config"@,
{
    String::from_str("config")
}

/// The staging directory a bundle file unpacks into: the part of the file
/// name before its first dot, or nothing for a name without an extension.
pub open spec fn target_dir_spec(bundle_name: Seq<char>) -> Option<Seq<char>> {
    let parts = split_spec(bundle_name, '.');
    if parts.len() >= 2 {
        Some(parts[0])
    } else {
        None
    }
}

/// The staging directory a bundle file unpacks into; a file name without an
/// extension yields nothing (callers reject such a name).
pub fn target_dir_name(aoitfile_name: &str) -> (r: Option<String>)
    ensures
        match r {
            Some(d) => target_dir_spec(aoitfile_name@) == Some(d@),
            None => target_dir_spec(aoitfile_name@) is None,
        },
{
    let mut parts = split_str(aoitfile_name, '.');
    if parts.len() >= 2 {
        let ghost dv = parts.deep_view();
        let first = parts.remove(0);
        proof {
            assert(first@ == dv[0]);
        }
        Some(first)
    } else {
        None
    }
}

/// Whether a file name is the downloaded artifact of the package: it starts
/// with the package name and carries the artifact extension.
pub open spec fn artifact_matches(name: Seq<char>, cand: Seq<char>) -> bool {
    &&& cand.len() >= name.len() + 4
    &&& cand.take(name.len() as int) == name
    &&& cand.skip(cand.len() - 4) == ".deb"@
}

/// The first candidate file name that is an artifact of the package.
pub open spec fn first_artifact(name: Seq<char>, cands: Seq<Seq<char>>) -> Option<Seq<char>>
    decreases cands.len(),
{
    if cands.len() == 0 {
        None
    } else if artifact_matches(name, cands[0]) {
        Some(cands[0])
    } else {
        first_artifact(name, cands.skip(1))
    }
}

proof fn lemma_first_artifact_skip(name: Seq<char>, cands: Seq<Seq<char>>, i: int)
    requires
        0 <= i <= cands.len(),
        forall|k: int| 0 <= k < i ==> !artifact_matches(name, cands[k]),
    ensures
        first_artifact(name, cands) == first_artifact(name, cands.skip(i)),
    decreases i,
{
    if i > 0 {
        assert(forall|k: int|
            0 <= k < i - 1 ==> cands.skip(1)[k] == cands[k + 1] && !artifact_matches(
                name,
                #[trigger] cands.skip(1)[k],
            ));
        lemma_first_artifact_skip(name, cands.skip(1), i - 1);
        assert(cands.skip(1).skip(i - 1) =~= cands.skip(i));
    } else {
        assert(cands.skip(0) =~= cands);
    }
}

/// Whether one candidate file name is the package's artifact.
fn artifact_matches_str(package_name: &str, cand: &str) -> (r: bool)
    ensures
        r == artifact_matches(package_name@, cand@),
{
    proof {
        reveal_strlit(".deb");
        assert(".deb"@.len() == 4);
    }
    let nlen = package_name.unicode_len();
    let clen = cand.unicode_len();
    if clen < nlen || clen - nlen < 4 {
        return false;
    }
    starts_with_str(cand, package_name) && ends_with_str(cand, ".deb")
}

/// The first of the candidate file names (the working directory's contents,
/// in the order listed) that is the package's downloaded artifact, or
/// nothing when no candidate matches.
pub fn select_artifact(package_name: &str, candidates: &Vec<String>) -> (r: Option<String>)
    ensures
        match r {
            Some(c) => first_artifact(package_name@, candidates.deep_view()) == Some(c@),
            None => first_artifact(package_name@, candidates.deep_view()) is None,
        },
{
    let n = candidates.len();
    let mut i: usize = 0;
    while i < n
        invariant
            0 <= i <= n,
            n == candidates.len(),
            forall|k: int|
                0 <= k < i ==> !artifact_matches(
                    package_name@,
                    #[trigger] candidates.deep_view()[k],
                ),
        decreases n - i,
    {
        if artifact_matches_str(package_name, candidates[i].as_str()) {
            proof {
                lemma_first_artifact_skip(package_name@, candidates.deep_view(), i as int);
                assert(candidates.deep_view().skip(i as int)[0]
                    == candidates.deep_view()[i as int]);
            }
            return Some(candidates[i].clone());
        }
        i = i + 1;
    }
    proof {
        lemma_first_artifact_skip(package_name@, candidates.deep_view(), n as int);
        assert(candidates.deep_view().skip(n as int).len() == 0);
    }
    None
}

/// The artifact-map entries for the resolved names and the artifacts the
/// fetcher located for them, in order; a name whose artifact was not found
/// gets no entry.
pub open spec fn map_entries_spec(names: Seq<Seq<char>>, arts: Seq<Option<Seq<char>>>) -> Seq<
    (Seq<char>, Seq<char>),
>
    decreases names.len(),
{
    if names.len() == 0 {
        Seq::empty()
    } else {
        match arts[0] {
            Some(a) => seq![(names[0], a)] + map_entries_spec(names.skip(1), arts.skip(1)),
            None => map_entries_spec(names.skip(1), arts.skip(1)),
        }
    }
}

/// Pair each resolved package name with the artifact file the fetcher
/// located for it; a package without a located artifact gets no map entry,
/// so install will warn on it and skip it.
pub fn make_packages_map(names: &Vec<String>, artifacts: &Vec<Option<String>>) -> (r: Vec<
    (String, String),
>)
    requires
        names.len() == artifacts.len(),
    ensures
        r.deep_view() == map_entries_spec(names.deep_view(), artifacts.deep_view()),
{
    let ghost names_dv = names.deep_view();
    let ghost arts_dv = artifacts.deep_view();
    let n = names.len();
    let mut out: Vec<(String, String)> = Vec::new();
    proof {
        assert(out.deep_view() =~= Seq::<(Seq<char>, Seq<char>)>::empty());
        assert(names_dv.skip(0) =~~= names_dv);
        assert(arts_dv.skip(0) =~~= arts_dv);
    }
    let mut i: usize = 0;
    while i < n
        invariant
            0 <= i <= n,
            n == names.len(),
            n == artifacts.len(),
            names_dv == names.deep_view(),
            arts_dv == artifacts.deep_view(),
            map_entries_spec(names_dv, arts_dv) == out.deep_view() + map_entries_spec(
                names_dv.skip(i as int),
                arts_dv.skip(i as int),
            ),
        decreases n - i,
    {
        let ghost ntail = names_dv.skip(i as int);
        let ghost atail = arts_dv.skip(i as int);
        proof {
            assert(ntail[0] == names_dv[i as int]);
            assert(atail[0] == arts_dv[i as int]);
            assert(ntail.skip(1) =~~= names_dv.skip(i + 1));
            assert(atail.skip(1) =~~= arts_dv.skip(i + 1));
        }
        match &artifacts[i] {
            Some(a) => {
                let ghost old_out = out.deep_view();
                let ghost pair = (names_dv[i as int], a@);
                out.push((names[i].clone(), a.clone()));
                proof {
                    assert(out.deep_view() =~= old_out.push(pair));
                    assert(old_out.push(pair) =~= old_out + seq![pair]);
                    assert(out.deep_view() + map_entries_spec(
                        names_dv.skip(i + 1),
                        arts_dv.skip(i + 1),
                    ) =~= old_out + map_entries_spec(ntail, atail));
                }
            },
            None => {},
        }
        i = i + 1;
    }
    proof {
        assert(names_dv.skip(n as int).len() == 0);
        assert(out.deep_view() + map_entries_spec(names_dv.skip(n as int), arts_dv.skip(n as int))
            =~= out.deep_view());
    }
    out
}

/// The artifact file name mapped to a package name: the first matching map
/// entry.
pub open spec fn assoc_get(entries: Seq<(Seq<char>, Seq<char>)>, k: Seq<char>) -> Option<Seq<char>>
    decreases entries.len(),
{
    if entries.len() == 0 {
        None
    } else if entries[0].0 == k {
        Some(entries[0].1)
    } else {
        assoc_get(entries.skip(1), k)
    }
}

proof fn lemma_assoc_get_skip(entries: Seq<(Seq<char>, Seq<char>)>, k: Seq<char>, i: int)
    requires
        0 <= i <= entries.len(),
        forall|j: int| 0 <= j < i ==> entries[j].0 != k,
    ensures
        assoc_get(entries, k) == assoc_get(entries.skip(i), k),
    decreases i,
{
    if i > 0 {
        lemma_assoc_get_skip(entries.skip(1), k, i - 1);
        assert(entries.skip(1).skip(i - 1) =~= entries.skip(i));
    } else {
        assert(entries.skip(0) =~= entries);
    }
}

/// The artifact file name an artifact map holds for a package name, if any.
pub fn map_get<'a>(entries: &'a Vec<(String, String)>, k: &str) -> (r: Option<&'a String>)
    ensures
        match r {
            Some(v) => assoc_get(entries.deep_view(), k@) == Some(v@),
            None => assoc_get(entries.deep_view(), k@) is None,
        },
{
    let n = entries.len();
    let mut i: usize = 0;
    while i < n
        invariant
            0 <= i <= n,
            n == entries.len(),
            forall|j: int| 0 <= j < i ==> entries.deep_view()[j].0 != k@,
        decreases n - i,
    {
        if str_eq(entries[i].0.as_str(), k) {
            proof {
                lemma_assoc_get_skip(entries.deep_view(), k@, i as int);
                assert(entries.deep_view().skip(i as int)[0] == entries.deep_view()[i as int]);
            }
            return Some(&entries[i].1);
        }
        i = i + 1;
    }
    proof {
        lemma_assoc_get_skip(entries.deep_view(), k@, n as int);
        assert(entries.deep_view().skip(n as int).len() == 0);
    }
    None
}

/// The installation steps a manifest calls for: the resolution order
/// reversed, each name paired with the artifact file mapped to it, or with
/// nothing where the map lacks an entry (that package is skipped with a
/// warning, never installed under a fabricated name).
pub open spec fn install_plan_spec(
    order: Seq<Seq<char>>,
    map: Seq<(Seq<char>, Seq<char>)>,
) -> Seq<(Seq<char>, Option<Seq<char>>)>
    decreases order.len(),
{
    if order.len() == 0 {
        Seq::empty()
    } else {
        seq![(order.last(), assoc_get(map, order.last()))] + install_plan_spec(
            order.drop_last(),
            map,
        )
    }
}

/// The installation steps for a decoded manifest, in the order they are to
/// be replayed: the resolution order reversed, each package name paired with
/// its artifact file name where the map holds one.
pub fn install_plan(config: &SerdeConfig) -> (r: Vec<(String, Option<String>)>)
    ensures
        r.deep_view() == install_plan_spec(
            config.packages_vec.deep_view(),
            config.packages_map.deep_view(),
        ),
{
    let ghost order_dv = config.packages_vec.deep_view();
    let ghost map_dv = config.packages_map.deep_view();
    let n = config.packages_vec.len();
    let mut out: Vec<(String, Option<String>)> = Vec::new();
    proof {
        assert(out.deep_view() =~= Seq::<(Seq<char>, Option<Seq<char>>)>::empty());
        assert(order_dv.take(n as int) =~~= order_dv);
    }
    let mut i: usize = n;
    while i > 0
        invariant
            0 <= i <= n,
            n == config.packages_vec.len(),
            order_dv == config.packages_vec.deep_view(),
            map_dv == config.packages_map.deep_view(),
            install_plan_spec(order_dv, map_dv) == out.deep_view() + install_plan_spec(
                order_dv.take(i as int),
                map_dv,
            ),
        decreases i,
    {
        let ghost pre = order_dv.take(i as int);
        proof {
            assert(pre.last() == order_dv[i - 1]);
            assert(pre.drop_last() =~~= order_dv.take(i - 1));
        }
        let name = &config.packages_vec[i - 1];
        let art: Option<String> = match map_get(&config.packages_map, name.as_str()) {
            Some(a) => Some(a.clone()),
            None => None,
        };
        let ghost old_out = out.deep_view();
        let ghost step = (name@, match art {
            Some(ref a) => Some(a@),
            None => None,
        });
        out.push((name.clone(), art));
        proof {
            assert(out.deep_view() =~= old_out.push(step));
            assert(old_out.push(step) =~= old_out + seq![step]);
            assert(out.deep_view() + install_plan_spec(order_dv.take(i - 1), map_dv) =~= old_out
                + install_plan_spec(pre, map_dv));
        }
        i = i - 1;
    }
    proof {
        assert(install_plan_spec(order_dv.take(0), map_dv) =~= Seq::<
            (Seq<char>, Option<Seq<char>>),
        >::empty());
        assert(out.deep_view() + install_plan_spec(order_dv.take(0), map_dv) =~= out.deep_view());
    }
    out
}

} // verus!

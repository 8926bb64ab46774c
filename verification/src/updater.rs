//! Choosing the release to update to: the newest release of the build's
//! flavour (or the requested version) that has the archive for the build's
//! target. Fetching the list, downloading and replacing the program are
//! left to the caller.
use vstd::prelude::*;
use vstd::string::{StringExecFns, StrSliceExecFns};
use crate::text::str_eq;

verus! {

/// A published release: its version tag and the names of its files.
#[derive(Debug)]
pub struct Release {
    pub version: String,
    pub assets: Vec<String>,
}

/// Whether `other` is a greater semantic version than `current`, as
/// `self_update::version::bump_is_greater` decides; false when either does
/// not parse.
pub uninterp spec fn semver_greater(current: Seq<char>, other: Seq<char>) -> bool;

/// `self_update::version::bump_is_greater(current, other)`, with a version
/// that does not parse taken as not greater. It parses both with `semver`
/// and compares them; the contract claims only that the answer is a
/// function of the two texts.
#[verifier::external_body]
fn bump_greater(current: &str, other: &str) -> (r: bool)
    ensures
        r == semver_greater(current@, other@),
{
    self_update::version::bump_is_greater(current, other).unwrap_or(false)
}

/// A tag with all leading `v`s taken off.
pub open spec fn trim_v(v: Seq<char>) -> Seq<char>
    decreases v.len(),
{
    if v.len() > 0 && v[0] == 'v' {
        trim_v(v.drop_first())
    } else {
        v
    }
}

/// The version a release tag stands for in a flavour: for `webui`, the tag
/// without its `webui-v` prefix (none without it); otherwise the tag
/// without leading `v`s.
pub open spec fn tag_version(flavor: Seq<char>, tag: Seq<char>) -> Option<Seq<char>> {
    if flavor == "webui"@ {
        if tag.len() >= 7 && tag.take(7) == "webui-v"@ {
            Some(tag.skip(7))
        } else {
            None
        }
    } else {
        Some(trim_v(tag))
    }
}

/// Whether a version is one to update to: the requested one; without a
/// request, a greater one, and a pre-release only from a pre-release.
pub open spec fn wanted(version: Seq<char>, current: Seq<char>, requested: Option<Seq<char>>) -> bool {
    match requested {
        Some(r) => version == r,
        None => semver_greater(current, version) && !(!current.contains('-') && version.contains('-')),
    }
}

/// The archive name of a version: `smartdns-webui` or `smartdns`, the
/// target, `v` and the version, and the extension.
pub open spec fn archive_name(flavor: Seq<char>, target: Seq<char>, extension: Seq<char>, version: Seq<char>) -> Seq<
    char,
> {
    (if flavor == "webui"@ { "smartdns-webui"@ } else { "smartdns"@ }) + "-"@ + target + "-v"@ + version + "."@
        + extension
}

/// The first file with the name, if any.
pub open spec fn first_named(assets: Seq<String>, name: Seq<char>) -> Option<int>
    decreases assets.len(),
{
    if assets.len() == 0 {
        None
    } else {
        match first_named(assets.drop_last(), name) {
            Some(j) => Some(j),
            None => if assets.last()@ == name {
                Some(assets.len() - 1)
            } else {
                None
            },
        }
    }
}

/// The choice after the first `n` releases: (release, file, version) of
/// the wanted release with its archive whose version is greatest, the
/// earliest of equals.
pub open spec fn choice(releases: Seq<Release>, flavor: Seq<char>, target: Seq<char>, extension: Seq<char>,
    current: Seq<char>, requested: Option<Seq<char>>, n: int) -> Option<(int, int, Seq<char>)>
    decreases n,
{
    if n <= 0 {
        None
    } else {
        let prev = choice(releases, flavor, target, extension, current, requested, n - 1);
        let r = releases[n - 1];
        match tag_version(flavor, r.version@) {
            None => prev,
            Some(v) => if !wanted(v, current, requested) {
                prev
            } else {
                match first_named(r.assets@, archive_name(flavor, target, extension, v)) {
                    None => prev,
                    Some(j) => match prev {
                        None => Some((n - 1, j, v)),
                        Some(p) => if semver_greater(p.2, v) {
                            Some((n - 1, j, v))
                        } else {
                            prev
                        },
                    },
                }
            },
        }
    }
}

fn contains_dash(s: &str) -> (r: bool)
    ensures
        r == s@.contains('-'),
{
    let n = s.unicode_len();
    let mut i: usize = 0;
    while i < n
        invariant
            i <= n == s@.len(),
            forall|j: int| 0 <= j < i ==> s@[j] != '-',
        decreases n - i,
    {
        if s.get_char(i) == '-' {
            assert(s@[i as int] == '-');
            return true;
        }
        i = i + 1;
    }
    false
}

fn version_of(flavor: &str, tag: &str) -> (r: Option<String>)
    ensures
        match r {
            Some(v) => tag_version(flavor@, tag@) == Some(v@),
            None => tag_version(flavor@, tag@) is None,
        },
{
    proof {
        reveal_strlit("webui");
        reveal_strlit("webui-v");
    }
    let n = tag.unicode_len();
    if str_eq(flavor, "webui") {
        if n >= 7 && str_eq(tag.substring_char(0, 7), "webui-v") {
            assert(tag@.subrange(0, 7) =~= tag@.take(7));
            let rest = tag.substring_char(7, n);
            assert(tag@.subrange(7, n as int) =~= tag@.skip(7));
            return Some(String::from_str(rest));
        }
        if n >= 7 {
            assert(tag@.subrange(0, 7) =~= tag@.take(7));
        }
        return None;
    }
    let mut k: usize = 0;
    assert(tag@.skip(0) =~= tag@);
    while k < n && tag.get_char(k) == 'v'
        invariant
            k <= n == tag@.len(),
            trim_v(tag@) == trim_v(tag@.skip(k as int)),
        decreases n - k,
    {
        assert(tag@.skip(k as int).drop_first() =~= tag@.skip(k + 1));
        k = k + 1;
    }
    let rest = tag.substring_char(k, n);
    assert(tag@.subrange(k as int, n as int) =~= tag@.skip(k as int));
    if k < n {
        assert(tag@.skip(k as int)[0] == tag@[k as int]);
    }
    Some(String::from_str(rest))
}

fn archive_of(flavor: &str, target: &str, extension: &str, version: &str) -> (r: String)
    ensures
        r@ == archive_name(flavor@, target@, extension@, version@),
{
    let mut s = if str_eq(flavor, "webui") {
        String::from_str("smartdns-webui")
    } else {
        String::from_str("smartdns")
    };
    s.append("-");
    s.append(target);
    s.append("-v");
    s.append(version);
    s.append(".");
    s.append(extension);
    s
}

fn find_named(assets: &Vec<String>, name: &str) -> (r: Option<usize>)
    ensures
        match r {
            Some(k) => first_named(assets@, name@) == Some(k as int),
            None => first_named(assets@, name@) is None,
        },
{
    let mut i: usize = 0;
    assert(assets@.take(0) =~= Seq::<String>::empty());
    while i < assets.len()
        invariant
            i <= assets@.len(),
            first_named(assets@.take(i as int), name@) is None,
        decreases assets.len() - i,
    {
        let ghost t = assets@.take(i + 1);
        assert(t.drop_last() =~= assets@.take(i as int));
        assert(t.last() == assets@[i as int]);
        if str_eq(assets[i].as_str(), name) {
            proof {
                lemma_first_named_grows(assets@, name@, i + 1, assets@.len() as int);
                assert(assets@.take(assets@.len() as int) =~= assets@);
            }
            return Some(i);
        }
        i = i + 1;
    }
    assert(assets@.take(assets@.len() as int) =~= assets@);
    None
}

proof fn lemma_first_named_grows(assets: Seq<String>, name: Seq<char>, n: int, m: int)
    requires
        0 <= n <= m <= assets.len(),
        first_named(assets.take(n), name) is Some,
    ensures
        first_named(assets.take(m), name) == first_named(assets.take(n), name),
    decreases m - n,
{
    if m > n {
        lemma_first_named_grows(assets, name, n, m - 1);
        assert(assets.take(m).drop_last() =~= assets.take(m - 1));
    }
}

/// The release to update to (see [`choice`]): its index, the index of its
/// archive, and its version. `flavor` is the build's flavour (`webui` or
/// another), `target` its target, `extension` the archive extension,
/// `current` the running version, `requested` a version asked for.
pub fn select_release(releases: &Vec<Release>, flavor: &str, target: &str, extension: &str, current: &str,
    requested: Option<&str>) -> (r: Option<(usize, usize, String)>)
    ensures
        match choice(releases@, flavor@, target@, extension@, current@, match requested {
            Some(q) => Some(q@),
            None => None,
        }, releases@.len() as int) {
            Some((i, j, v)) => r matches Some((a, b, s)) && a == i && b == j && s@ == v,
            None => r is None,
        },
{
    let ghost req = match requested {
        Some(q) => Some(q@),
        None => None::<Seq<char>>,
    };
    let mut selected: Option<(usize, usize, String)> = None;
    let mut i: usize = 0;
    let current_dash = contains_dash(current);
    while i < releases.len()
        invariant
            i <= releases@.len(),
            current_dash == current@.contains('-'),
            req == match requested {
                Some(q) => Some(q@),
                None => None::<Seq<char>>,
            },
            match choice(releases@, flavor@, target@, extension@, current@, req, i as int) {
                Some((a, b, v)) => selected matches Some((x, y, s)) && x == a && y == b && s@ == v,
                None => selected is None,
            },
        decreases releases.len() - i,
    {
        let release = &releases[i];
        let ghost prev = choice(releases@, flavor@, target@, extension@, current@, req, i as int);
        assert(releases@[i as int] == *release);
        assert(choice(releases@, flavor@, target@, extension@, current@, req, i + 1) == {
            let r = releases@[i as int];
            match tag_version(flavor@, r.version@) {
                None => prev,
                Some(v) => if !wanted(v, current@, req) {
                    prev
                } else {
                    match first_named(r.assets@, archive_name(flavor@, target@, extension@, v)) {
                        None => prev,
                        Some(j) => match prev {
                            None => Some((i as int, j, v)),
                            Some(p) => if semver_greater(p.2, v) {
                                Some((i as int, j, v))
                            } else {
                                prev
                            },
                        },
                    }
                },
            }
        });
        match version_of(flavor, release.version.as_str()) {
            None => {},
            Some(version) => {
                let ok = match requested {
                    Some(q) => str_eq(version.as_str(), q),
                    None => bump_greater(current, version.as_str()) && !(!current_dash && contains_dash(
                        version.as_str(),
                    )),
                };
                assert(ok == wanted(version@, current@, req));
                if ok {
                    let name = archive_of(flavor, target, extension, version.as_str());
                    let found = find_named(&release.assets, name.as_str());
                    assert(name@ == archive_name(flavor@, target@, extension@, version@));
                    match found {
                        None => {},
                        Some(j) => {
                            let better = match &selected {
                                None => true,
                                Some((_, _, previous)) => bump_greater(previous.as_str(), version.as_str()),
                            };
                            if better {
                                selected = Some((i, j, version));
                            }
                        },
                    }
                }
            },
        }
        i = i + 1;
    }
    selected
}

} // verus!

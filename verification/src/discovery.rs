//! Where shortcut files are looked for.
//!
//! The directories follow the desktop data-directory convention: one
//! directory of the user, the directories of the system, and the export
//! directories of the two sandboxed application formats. The caller reads
//! the environment and hands over what it found; whether a directory exists
//! is the caller's business as well.

use crate::text::{append, optional_str, split, split_chars, texts, to_chars, to_string, Separator};
use vstd::prelude::*;

verus! {

/// `rest` appended to the path `base` as further components: a `/` goes
/// between them unless `base` is empty or already ends in one.
pub open spec fn join_path(base: Seq<char>, rest: Seq<char>) -> Seq<char> {
    if base.len() == 0 || base.last() == '/' {
        base + rest
    } else {
        base + seq!['/'] + rest
    }
}

/// The directory of the user: under the data home where one is configured,
/// else under the home directory, and none where neither is known.
pub open spec fn user_dirs(data_home: Option<Seq<char>>, home: Option<Seq<char>>) -> Seq<
    Seq<char>,
> {
    match data_home {
        Some(dir) => seq![join_path(dir, "applications"@)],
        None => match home {
            Some(dir) => seq![join_path(dir, ".local/share/applications"@)],
            None => Seq::empty(),
        },
    }
}

/// The directories of the system: one under each component of the
/// `:`-separated list where one is configured, else the two default ones.
pub open spec fn system_dirs(data_dirs: Option<Seq<char>>) -> Seq<Seq<char>> {
    match data_dirs {
        Some(list) => split(list, Separator::Char(':')).map_values(
            |dir: Seq<char>| join_path(dir, "applications"@),
        ),
        None => seq!["/usr/local/share/applications"@, "/usr/share/applications"@],
    }
}

/// The export directories of sandboxed applications.
pub open spec fn sandbox_dirs() -> Seq<Seq<char>> {
    seq!["/var/lib/flatpak/exports/share/applications"@, "/var/lib/snapd/desktop/applications"@]
}

/// All directories to scan, in scan order.
pub open spec fn scan_dirs(
    data_home: Option<Seq<char>>,
    home: Option<Seq<char>>,
    data_dirs: Option<Seq<char>>,
) -> Seq<Seq<char>> {
    user_dirs(data_home, home) + system_dirs(data_dirs) + sandbox_dirs()
}

/// The texts of a sequence of strings.
pub open spec fn paths(dirs: Seq<String>) -> Seq<Seq<char>> {
    dirs.map_values(|dir: String| dir@)
}

/// Computes [`join_path`].
fn join(base: &[char], rest: &str) -> (path: String)
    ensures
        path@ == join_path(base@, rest@),
{
    let mut path: Vec<char> = Vec::new();
    append(&mut path, base);
    if base.len() > 0 && base[base.len() - 1] != '/' {
        path.push('/');
    }
    append(&mut path, &to_chars(rest));
    to_string(&path)
}

/// The directories to scan for shortcut files, in scan order.
///
/// `data_home` is the configured data home of the user, `home` the home
/// directory, `data_dirs` the configured `:`-separated list of system data
/// directories; each is `None` where the environment does not give it. A
/// user without data home and without home directory has no directory of
/// their own, and the scan goes on with the others. Directories may repeat.
pub fn app_dirs(data_home: Option<&str>, home: Option<&str>, data_dirs: Option<&str>) -> (dirs:
    Vec<String>)
    ensures
        paths(dirs@) == scan_dirs(
            optional_str(data_home),
            optional_str(home),
            optional_str(data_dirs),
        ),
        dirs@.len() == scan_dirs(
            optional_str(data_home),
            optional_str(home),
            optional_str(data_dirs),
        ).len(),
        forall|i: int|
            0 <= i < dirs@.len() ==> (#[trigger] dirs@[i])@ == scan_dirs(
                optional_str(data_home),
                optional_str(home),
                optional_str(data_dirs),
            )[i],
{
    let mut dirs: Vec<String> = Vec::new();
    match data_home {
        Some(dir) => {
            dirs.push(join(&to_chars(dir), "applications"));
        },
        None => match home {
            Some(dir) => {
                dirs.push(join(&to_chars(dir), ".local/share/applications"));
            },
            None => {},
        },
    }
    assert(paths(dirs@) =~= user_dirs(optional_str(data_home), optional_str(home)));
    match data_dirs {
        Some(list) => {
            let components = split_chars(&to_chars(list), Separator::Char(':'));
            let ghost user = dirs@;
            for i in 0..components.len()
                invariant
                    texts(components@) == split(list@, Separator::Char(':')),
                    dirs@.len() == user.len() + i,
                    dirs@.take(user.len() as int) == user,
                    forall|j: int|
                        0 <= j < i ==> (#[trigger] dirs@[user.len() + j])@ == join_path(
                            components@[j]@,
                            "applications"@,
                        ),
            {
                dirs.push(join(&components[i], "applications"));
            }
            proof {
                let system = system_dirs(optional_str(data_dirs));
                assert forall|k: int| 0 <= k < dirs@.len() implies paths(dirs@)[k] == (paths(user)
                    + system)[k] by {
                    if k < user.len() {
                        assert(dirs@[k] == dirs@.take(user.len() as int)[k]);
                    } else {
                        assert(dirs@[user.len() + (k - user.len())]@ == system[k - user.len()]);
                    }
                }
                assert(paths(dirs@) =~= paths(user) + system);
            }
        },
        None => {
            dirs.push("/usr/local/share/applications".to_string());
            dirs.push("/usr/share/applications".to_string());
            assert(paths(dirs@) =~= user_dirs(optional_str(data_home), optional_str(home))
                + system_dirs(optional_str(data_dirs)));
        },
    }
    dirs.push("/var/lib/flatpak/exports/share/applications".to_string());
    dirs.push("/var/lib/snapd/desktop/applications".to_string());
    assert(paths(dirs@) =~= scan_dirs(
        optional_str(data_home),
        optional_str(home),
        optional_str(data_dirs),
    ));
    assert forall|i: int| 0 <= i < dirs@.len() implies (#[trigger] dirs@[i])@ == scan_dirs(
        optional_str(data_home),
        optional_str(home),
        optional_str(data_dirs),
    )[i] by {
        assert(paths(dirs@)[i] == dirs@[i]@);
    }
    dirs
}

} // verus!

//! File locations of templates and configuration, composed from the values
//! of the environment variables that the application reads.
use vstd::prelude::*;
use vstd::string::*;

verus! {

/// Appends `part` to `base` the way a Unix path is extended: an absolute
/// `part` replaces `base`; otherwise one `/` separates the two unless `base`
/// is empty or already ends with one.
pub open spec fn joined(base: Seq<char>, part: Seq<char>) -> Seq<char> {
    if part.len() > 0 && part[0] == '/' {
        part
    } else if base.len() == 0 || base.last() == '/' {
        base + part
    } else {
        base + seq!['/'] + part
    }
}

/// Where per-user data lives when `XDG_DATA_HOME` is not set.
pub open spec fn data_fallback(home: Seq<char>) -> Seq<char> {
    home + "/.local/share"@
}

/// Where per-user configuration lives when `XDG_CONFIG_HOME` is not set.
pub open spec fn config_fallback(home: Seq<char>) -> Seq<char> {
    home + "/.config"@
}

/// The XDG base directory if it is set, else `fallback`.
pub open spec fn base_or(xdg: Option<Seq<char>>, fallback: Seq<char>) -> Seq<char> {
    match xdg {
        Some(dir) => dir,
        None => fallback,
    }
}

/// Directory that holds this application's data.
pub open spec fn data_dir(home: Seq<char>, xdg_data_home: Option<Seq<char>>) -> Seq<char> {
    joined(base_or(xdg_data_home, data_fallback(home)), "wlrune"@)
}

/// Location of the template recorded under `name`.
pub open spec fn template_location(
    home: Seq<char>,
    xdg_data_home: Option<Seq<char>>,
    name: Seq<char>,
) -> Seq<char> {
    joined(joined(data_dir(home, xdg_data_home), "patterns"@), name)
}

/// The configuration files that are looked for, in order of preference.
pub open spec fn config_candidates(home: Seq<char>, xdg_config_home: Option<Seq<char>>) -> Seq<
    Seq<char>,
> {
    let base = base_or(xdg_config_home, config_fallback(home));
    seq![
        joined(base, "wlrune/config.yaml"@),
        joined(base, "wlrune/config.yml"@),
        joined(base, "wlrune/config"@),
    ]
}

pub open spec fn opt_view(s: Option<&str>) -> Option<Seq<char>> {
    match s {
        Some(t) => Some(t@),
        None => None,
    }
}

/// Extends the path `base` by `part`.
pub fn join_path(base: &str, part: &str) -> (r: String)
    ensures
        r@ == joined(base@, part@),
{
    let part_len = part.unicode_len();
    let base_len = base.unicode_len();
    if part_len > 0 && part.get_char(0) == '/' {
        return String::from_str(part);
    }
    let mut r = String::from_str(base);
    if !(base_len == 0 || base.get_char(base_len - 1) == '/') {
        r.append("/");
        proof {
            reveal_strlit("/");
        }
    }
    r.append(part);
    proof {
        assert(r@ =~= joined(base@, part@));
    }
    r
}

fn base_dir(xdg: Option<&str>, home: &str, under_home: &str) -> (r: String)
    ensures
        r@ == base_or(opt_view(xdg), home@ + under_home@),
{
    match xdg {
        Some(dir) => String::from_str(dir),
        None => {
            let mut r = String::from_str(home);
            r.append(under_home);
            r
        },
    }
}

/// The application's data directory; fails when `home` (the user's home
/// directory) is unknown, whether or not the XDG directory is given.
pub fn gesture_data_dir(home: Option<&str>, xdg_data_home: Option<&str>) -> (r: Result<String, ()>)
    ensures
        home is None <==> r is Err,
        r is Ok ==> r->Ok_0@ == data_dir(home->Some_0@, opt_view(xdg_data_home)),
{
    match home {
        None => Err(()),
        Some(h) => {
            let base = base_dir(xdg_data_home, h, "/.local/share");
            Ok(join_path(base.as_str(), "wlrune"))
        },
    }
}

/// Where the template recorded under `name` is stored.
pub fn gesture_file_path(home: Option<&str>, xdg_data_home: Option<&str>, name: &str) -> (r: Result<
    String,
    (),
>)
    ensures
        home is None <==> r is Err,
        r is Ok ==> r->Ok_0@ == template_location(home->Some_0@, opt_view(xdg_data_home), name@),
{
    let dir = gesture_data_dir(home, xdg_data_home)?;
    let patterns = join_path(dir.as_str(), "patterns");
    Ok(join_path(patterns.as_str(), name))
}

/// The configuration files to look for, most preferred first.
pub fn default_config_pathes(home: Option<&str>, xdg_config_home: Option<&str>) -> (r: Result<
    Vec<String>,
    (),
>)
    ensures
        home is None <==> r is Err,
        r is Ok ==> r->Ok_0@.len() == 3 && forall|i: int|
            0 <= i < 3 ==> #[trigger] r->Ok_0@[i]@ == config_candidates(
                home->Some_0@,
                opt_view(xdg_config_home),
            )[i],
{
    match home {
        None => Err(()),
        Some(h) => {
            let base = base_dir(xdg_config_home, h, "/.config");
            let mut v: Vec<String> = Vec::new();
            v.push(join_path(base.as_str(), "wlrune/config.yaml"));
            v.push(join_path(base.as_str(), "wlrune/config.yml"));
            v.push(join_path(base.as_str(), "wlrune/config"));
            Ok(v)
        },
    }
}

} // verus!

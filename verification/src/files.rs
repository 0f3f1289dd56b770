//! Where profiles live and how a directory of them is read: which file
//! names count as profiles, in what order they load, and what a load
//! reports. Reading directories and files happens outside this library;
//! what they return is handed in here.
use vstd::prelude::*;
use crate::matching::{lemma_str_lt_three, str_less, str_lt};
use crate::model::{Profile, ProfileView, strings_view};
use crate::parse::{Diagnostic, DiagnosticView, diagnostics_view};
use crate::text::{chars_of, push_str, string_of};
use vstd::relations::{sorted_by, total_ordering};

verus! {

/// `s` is in ascending `str` order.
pub open spec fn sorted(s: Seq<Seq<char>>) -> bool {
    forall|i: int, j: int| 0 <= i < j < s.len() ==> !str_lt(#[trigger] s[j], #[trigger] s[i])
}

/// The names in ascending `str` order; equal names keep their order.
pub fn sort_names(names: Vec<String>) -> (r: Vec<String>)
    ensures
        sorted(strings_view(r@)),
        strings_view(r@).to_multiset() == strings_view(names@).to_multiset(),
{
    let ghost input = strings_view(names@);
    let mut out: Vec<String> = Vec::new();
    let mut i: usize = 0;
    assert(input.take(0) =~= Seq::<Seq<char>>::empty());
    assert(strings_view(out@) =~= Seq::<Seq<char>>::empty());
    while i < names.len()
        invariant
            i <= names@.len(),
            input == strings_view(names@),
            sorted(strings_view(out@)),
            strings_view(out@).to_multiset() == input.take(i as int).to_multiset(),
        decreases names@.len() - i,
    {
        let x = names[i].clone();
        let ghost s = strings_view(out@);
        let mut k: usize = 0;
        while k < out.len() && !str_less(x.as_str(), out[k].as_str())
            invariant
                k <= out@.len(),
                s == strings_view(out@),
                forall|j: int| 0 <= j < k ==> !str_lt(x@, #[trigger] s[j]),
            decreases out@.len() - k,
        {
            k += 1;
        }
        out.insert(k, x);
        proof {
            let t = strings_view(out@);
            assert(t =~= s.insert(k as int, x@));
            assert forall|a: int, b: int| 0 <= a < b < t.len() implies !str_lt(
                #[trigger] t[b],
                #[trigger] t[a],
            ) by {
                if a < k && b == k {
                    assert(!str_lt(x@, s[a]));
                    lemma_str_lt_three(x@, s[a], x@);
                } else if a == k && b > k {
                    assert(str_lt(x@, s[k as int]));
                    lemma_str_lt_three(s[b - 1], s[k as int], x@);
                    if b - 1 > k {
                        assert(!str_lt(s[b - 1], s[k as int]));
                    }
                } else if a < k && b > k {
                    assert(!str_lt(s[b - 1], s[a]));
                } else if b < k {
                    assert(!str_lt(s[b], s[a]));
                } else {
                    assert(!str_lt(s[b - 1], s[a - 1]));
                }
            }
            assert(input.take(i + 1) =~= input.take(i as int).push(input[i as int]));
            assert(input.take(i as int).push(input[i as int]) =~= input.take(i as int).insert(
                i as int,
                input[i as int],
            ));
            assert(input[i as int] == x@);
            vstd::seq_lib::to_multiset_insert(s, k as int, x@);
            vstd::seq_lib::to_multiset_insert(input.take(i as int), i as int, x@);
        }
        i += 1;
    }
    assert(input.take(names@.len() as int) =~= input);
    out
}

/// The position of the last `c` in `s`.
pub open spec fn last_index(s: Seq<char>, c: char) -> Option<int>
    decreases s.len(),
{
    if s.len() == 0 {
        None
    } else if s.last() == c {
        Some(s.len() - 1)
    } else {
        last_index(s.drop_last(), c)
    }
}

/// `Path::extension` of a file name: what follows its last `.`, unless
/// that dot is the first character.
pub open spec fn extension(name: Seq<char>) -> Option<Seq<char>> {
    match last_index(name, '.') {
        Some(k) => if k > 0 {
            Some(name.skip(k + 1))
        } else {
            None
        },
        None => None,
    }
}

/// `Path::file_stem` of a file name: what precedes its last `.`, unless
/// that dot is the first character, in which case the whole name. This is
/// stated for names of files; `.` and `..`, which std gives no stem, name
/// no file and never come out of a directory listing.
pub open spec fn file_stem(name: Seq<char>) -> Seq<char> {
    match last_index(name, '.') {
        Some(k) => if k > 0 {
            name.take(k)
        } else {
            name
        },
        None => name,
    }
}

pub open spec fn hidden(name: Seq<char>) -> bool {
    name.len() > 0 && name[0] == '.'
}

/// A file a profile directory loads: a `.toml` file that is not hidden.
pub open spec fn is_profile_file(name: Seq<char>) -> bool {
    extension(name) == Some("toml"@) && !hidden(name)
}

/// The names of the first `n` entries that are profile files.
pub open spec fn profile_files(names: Seq<Seq<char>>, n: int) -> Seq<Seq<char>>
    decreases n,
{
    if n <= 0 {
        Seq::empty()
    } else if is_profile_file(names[n - 1]) {
        profile_files(names, n - 1).push(names[n - 1])
    } else {
        profile_files(names, n - 1)
    }
}

/// Names in `str` order, equal ones allowed side by side.
pub open spec fn name_leq(a: Seq<char>, b: Seq<char>) -> bool {
    !str_lt(b, a)
}

/// The profile files among `names`, in the order they load.
pub open spec fn load_order(names: Seq<Seq<char>>) -> Seq<Seq<char>> {
    profile_files(names, names.len() as int).sort_by(|a: Seq<char>, b: Seq<char>| name_leq(a, b))
}

proof fn lemma_name_order()
    ensures
        total_ordering(|a: Seq<char>, b: Seq<char>| name_leq(a, b)),
{
    let leq = |a: Seq<char>, b: Seq<char>| name_leq(a, b);
    assert forall|x: Seq<char>, y: Seq<char>, z: Seq<char>| #[trigger]
        leq(x, y) && #[trigger] leq(y, z) implies leq(x, z) by {
        lemma_str_lt_three(x, y, z);
    }
    assert forall|x: Seq<char>, y: Seq<char>| #[trigger] leq(x, y) && #[trigger] leq(y, x) implies x
        == y by {
        lemma_str_lt_three(x, y, x);
    }
    assert forall|x: Seq<char>, y: Seq<char>| #[trigger] leq(x, y) || #[trigger] leq(y, x) by {
        lemma_str_lt_three(x, y, x);
    }
    assert forall|x: Seq<char>| #[trigger] leq(x, x) by {
        lemma_str_lt_three(x, x, x);
    }
}

/// A sorted arrangement of the profile files is the load order: there is
/// only one.
proof fn lemma_load_order_unique(names: Seq<Seq<char>>, r: Seq<Seq<char>>)
    requires
        sorted(r),
        r.to_multiset() == profile_files(names, names.len() as int).to_multiset(),
    ensures
        r == load_order(names),
{
    let leq = |a: Seq<char>, b: Seq<char>| name_leq(a, b);
    lemma_name_order();
    let f = profile_files(names, names.len() as int);
    f.lemma_sort_by_ensures(leq);
    assert(sorted_by(r, leq)) by {
        assert forall|i: int, j: int| 0 <= i < j < r.len() implies #[trigger] leq(r[i], r[j]) by {
            assert(!str_lt(r[j], r[i]));
        }
    }
    vstd::seq_lib::lemma_sorted_unique(r, f.sort_by(leq), leq);
}

/// The stems of the first `n` entries with a `.toml` extension and a stem
/// that is not hidden.
pub open spec fn profile_stems_of(names: Seq<Seq<char>>, n: int) -> Seq<Seq<char>>
    decreases n,
{
    if n <= 0 {
        Seq::empty()
    } else if extension(names[n - 1]) == Some("toml"@) && !hidden(file_stem(names[n - 1])) {
        profile_stems_of(names, n - 1).push(file_stem(names[n - 1]))
    } else {
        profile_stems_of(names, n - 1)
    }
}

/// The position of the last `.` of `v`.
fn last_dot(v: &Vec<char>) -> (r: Option<usize>)
    ensures
        match r {
            Some(k) => k < v@.len() && last_index(v@, '.') == Some(k as int),
            None => last_index(v@, '.') is None,
        },
{
    let mut i = v.len();
    assert(v@.take(v@.len() as int) =~= v@);
    while i > 0
        invariant
            i <= v@.len(),
            last_index(v@, '.') == last_index(v@.take(i as int), '.'),
        decreases i,
    {
        assert(v@.take(i as int).drop_last() =~= v@.take(i - 1));
        if v[i - 1] == '.' {
            return Some(i - 1);
        }
        i -= 1;
    }
    None
}

proof fn lemma_last_index(s: Seq<char>, c: char)
    ensures
        last_index(s, c) matches Some(k) ==> 0 <= k < s.len(),
    decreases s.len(),
{
    if s.len() > 0 && s.last() != c {
        lemma_last_index(s.drop_last(), c);
    }
}

/// `Path::extension` of `name` is `toml`.
fn has_toml_extension(v: &Vec<char>) -> (b: bool)
    ensures
        b == (extension(v@) == Some("toml"@)),
{
    proof {
        lemma_last_index(v@, '.');
        reveal_strlit("toml");
    }
    match last_dot(v) {
        Some(k) => {
            let n = v.len();
            if k == 0 || k >= n {
                false
            } else {
                let r = crate::text::range_eq(v, k + 1, n, "toml");
                assert(v@.skip(k + 1) =~= v@.subrange(k + 1, v@.len() as int));
                r
            }
        },
        None => false,
    }
}

/// `Path::file_stem` of a file name.
pub fn stem_of(name: &str) -> (s: String)
    ensures
        s@ == file_stem(name@),
{
    let v = chars_of(name);
    proof {
        lemma_last_index(v@, '.');
    }
    match last_dot(&v) {
        Some(k) => if k > 0 {
            let s = string_of(&v, 0, k);
            assert(v@.take(k as int) =~= v@.subrange(0, k as int));
            s
        } else {
            String::from_str(name)
        },
        None => String::from_str(name),
    }
}

/// The profile files among a directory's entry names, in the order they
/// load: ascending by name.
pub fn profile_file_names(names: &[String]) -> (r: Vec<String>)
    ensures
        strings_view(r@) == load_order(strings_view(names@)),
        sorted(strings_view(r@)),
        strings_view(r@).to_multiset() == profile_files(
            strings_view(names@),
            names@.len() as int,
        ).to_multiset(),
{
    let ghost ns = strings_view(names@);
    let mut keep: Vec<String> = Vec::new();
    let mut i: usize = 0;
    while i < names.len()
        invariant
            i <= names@.len(),
            ns == strings_view(names@),
            strings_view(keep@) == profile_files(ns, i as int),
        decreases names@.len() - i,
    {
        let v = chars_of(names[i].as_str());
        assert(ns[i as int] == v@);
        let is_hidden = v.len() > 0 && v[0] == '.';
        if has_toml_extension(&v) && !is_hidden {
            let ghost before = strings_view(keep@);
            keep.push(names[i].clone());
            assert(strings_view(keep@) =~= before.push(ns[i as int]));
        }
        i += 1;
    }
    let r = sort_names(keep);
    proof {
        lemma_load_order_unique(ns, strings_view(r@));
    }
    r
}

/// The stems of the profiles among a directory's entry names, ascending.
pub fn profile_stems(names: &[String]) -> (r: Vec<String>)
    ensures
        sorted(strings_view(r@)),
        strings_view(r@).to_multiset() == profile_stems_of(
            strings_view(names@),
            names@.len() as int,
        ).to_multiset(),
{
    let ghost ns = strings_view(names@);
    let mut keep: Vec<String> = Vec::new();
    let mut i: usize = 0;
    while i < names.len()
        invariant
            i <= names@.len(),
            ns == strings_view(names@),
            strings_view(keep@) == profile_stems_of(ns, i as int),
        decreases names@.len() - i,
    {
        let v = chars_of(names[i].as_str());
        assert(ns[i as int] == v@);
        if has_toml_extension(&v) {
            let stem = stem_of(names[i].as_str());
            let sv = chars_of(stem.as_str());
            if !(sv.len() > 0 && sv[0] == '.') {
                let ghost before = strings_view(keep@);
                keep.push(stem);
                assert(strings_view(keep@) =~= before.push(file_stem(ns[i as int])));
            }
        }
        i += 1;
    }
    sort_names(keep)
}

/// What reading one profile file gave.
pub enum FileRead {
    /// The file could not be read; the I/O error's text.
    Unreadable(String),
    /// The file was read and decoded: the profile and its warnings, or why
    /// it is unusable.
    Parsed(Result<(Profile, Vec<String>), String>),
}

/// A profile file, by the path it was read from, and what reading it gave.
pub struct LoadedFile {
    pub source: String,
    pub read: FileRead,
}

pub enum FileReadView {
    Unreadable(Seq<char>),
    Parsed(Result<(ProfileView, Seq<Seq<char>>), Seq<char>>),
}

pub open spec fn loaded_view(f: LoadedFile) -> (Seq<char>, FileReadView) {
    (
        f.source@,
        match f.read {
            FileRead::Unreadable(e) => FileReadView::Unreadable(e@),
            FileRead::Parsed(Ok((p, w))) => FileReadView::Parsed(Ok((p@, strings_view(w@)))),
            FileRead::Parsed(Err(e)) => FileReadView::Parsed(Err(e@)),
        },
    )
}

pub open spec fn diagnostic(source: Seq<char>, message: Seq<char>) -> DiagnosticView {
    DiagnosticView { source, message }
}

/// Each warning of a loaded profile, reported against its file.
pub open spec fn warning_diagnostics(source: Seq<char>, ws: Seq<Seq<char>>) -> Seq<DiagnosticView> {
    ws.map_values(|w: Seq<char>| diagnostic(source, w))
}

/// The profiles and diagnostics of the first `n` files: a usable profile is
/// kept with its warnings reported; an unusable or unreadable file is
/// reported and skipped.
pub open spec fn collected(files: Seq<(Seq<char>, FileReadView)>, n: int) -> (
    Seq<ProfileView>,
    Seq<DiagnosticView>,
)
    decreases n,
{
    if n <= 0 {
        (Seq::empty(), Seq::empty())
    } else {
        let (ps, ds) = collected(files, n - 1);
        let (source, read) = files[n - 1];
        match read {
            FileReadView::Unreadable(e) => (
                ps,
                ds.push(diagnostic(source, "unreadable: "@ + e)),
            ),
            FileReadView::Parsed(Ok((p, ws))) => (
                ps.push(p),
                ds + warning_diagnostics(source, ws),
            ),
            FileReadView::Parsed(Err(e)) => (ps, ds.push(diagnostic(source, "skipped: "@ + e))),
        }
    }
}

fn prefixed(prefix: &str, text: &String) -> (s: String)
    ensures
        s@ == prefix@ + text@,
{
    let mut s = String::from_str(prefix);
    push_str(&mut s, text.as_str());
    s
}

/// The profiles of a directory's files, in order, and the diagnostics met.
pub fn collect_profiles(files: Vec<LoadedFile>) -> (r: (Vec<Profile>, Vec<Diagnostic>))
    ensures
        (r.0@.map_values(|p: Profile| p@), diagnostics_view(r.1@)) == collected(
            files@.map_values(|f: LoadedFile| loaded_view(f)),
            files@.len() as int,
        ),
{
    let ghost fs = files@.map_values(|f: LoadedFile| loaded_view(f));
    let mut profiles: Vec<Profile> = Vec::new();
    let mut diagnostics: Vec<Diagnostic> = Vec::new();
    assert(files@.len() == files.len());
    let ghost total = fs.len();
    let mut rest = files;
    let mut i: usize = 0;
    while rest.len() > 0
        invariant
            i + rest@.len() == total,
            total == fs.len(),
            total <= usize::MAX,
            forall|k: int|
                0 <= k < rest@.len() ==> loaded_view(#[trigger] rest@[k]) == fs[i + k],
            (profiles@.map_values(|p: Profile| p@), diagnostics_view(diagnostics@)) == collected(
                fs,
                i as int,
            ),
        decreases rest@.len(),
    {
        let ghost before_rest = rest@;
        let f = rest.remove(0);
        assert(loaded_view(f) == fs[i as int]) by {
            assert(f == before_rest[0]);
        }
        assert forall|k: int| 0 <= k < rest@.len() implies loaded_view(#[trigger] rest@[k])
            == fs[i + 1 + k] by {
            assert(rest@[k] == before_rest[k + 1]);
        }
        let ghost ps0 = profiles@.map_values(|p: Profile| p@);
        let ghost ds0 = diagnostics_view(diagnostics@);
        let LoadedFile { source, read } = f;
        match read {
            FileRead::Unreadable(e) => {
                let d = Diagnostic { source, message: prefixed("unreadable: ", &e) };
                diagnostics.push(d);
                assert(diagnostics_view(diagnostics@) =~= ds0.push(d@));
            },
            FileRead::Parsed(Ok((p, ws))) => {
                let mut j: usize = 0;
                while j < ws.len()
                    invariant
                        j <= ws@.len(),
                        diagnostics_view(diagnostics@) == ds0 + warning_diagnostics(
                            source@,
                            strings_view(ws@).take(j as int),
                        ),
                    decreases ws@.len() - j,
                {
                    let ghost dj = diagnostics_view(diagnostics@);
                    let d = Diagnostic { source: source.clone(), message: ws[j].clone() };
                    assert(d@ == diagnostic(source@, strings_view(ws@)[j as int]));
                    diagnostics.push(d);
                    assert(diagnostics_view(diagnostics@) =~= dj.push(d@));
                    assert(strings_view(ws@).take(j + 1) =~= strings_view(ws@).take(j as int).push(
                        ws@[j as int]@,
                    ));
                    j += 1;
                    assert(diagnostics_view(diagnostics@) =~= ds0 + warning_diagnostics(
                        source@,
                        strings_view(ws@).take(j as int),
                    ));
                }
                assert(strings_view(ws@).take(ws@.len() as int) =~= strings_view(ws@));
                let ghost pv = p@;
                profiles.push(p);
                assert(profiles@.map_values(|p: Profile| p@) =~= ps0.push(pv));
            },
            FileRead::Parsed(Err(e)) => {
                let d = Diagnostic { source, message: prefixed("skipped: ", &e) };
                diagnostics.push(d);
                assert(diagnostics_view(diagnostics@) =~= ds0.push(d@));
            },
        }
        i += 1;
    }
    (profiles, diagnostics)
}

/// The diagnostic for a profile directory that exists but cannot be read
/// (an absent one is no fault and gets none).
pub fn unreadable_directory(source: &str, error: &str) -> (d: Diagnostic)
    ensures
        d@ == diagnostic(source@, "cannot read profile directory: "@ + error@),
{
    let mut message = String::from_str("cannot read profile directory: ");
    push_str(&mut message, error);
    Diagnostic { source: String::from_str(source), message }
}

/// `PathBuf::join` on Unix: an absolute `rest` replaces `base`; otherwise
/// a `/` separates them unless `base` is empty or already ends in one.
pub open spec fn path_join(base: Seq<char>, rest: Seq<char>) -> Seq<char> {
    if rest.len() > 0 && rest[0] == '/' {
        rest
    } else if base.len() == 0 || base.last() == '/' {
        base + rest
    } else {
        base + seq!['/'] + rest
    }
}

pub fn join(base: &str, rest: &str) -> (p: String)
    ensures
        p@ == path_join(base@, rest@),
{
    let b = chars_of(base);
    let r = chars_of(rest);
    if r.len() > 0 && r[0] == '/' {
        String::from_str(rest)
    } else {
        let mut p = String::from_str(base);
        if !(b.len() == 0 || b[b.len() - 1] == '/') {
            crate::text::push_char(&mut p, '/');
        }
        push_str(&mut p, rest);
        p
    }
}

/// The shared profile directory.
pub fn system_dir() -> (d: String)
    ensures
        d@ == "/etc/monitor-profiles"@,
{
    String::from_str("/etc/monitor-profiles")
}

/// The per-user profile directory: `$XDG_CONFIG_HOME`, else
/// `$HOME/.config`, else the current directory, joined with `hypr/profiles`.
pub open spec fn user_dir_spec(xdg: Option<Seq<char>>, home: Option<Seq<char>>) -> Seq<char> {
    let config = match xdg {
        Some(x) => x,
        None => match home {
            Some(h) => path_join(h, ".config"@),
            None => seq!['.'],
        },
    };
    path_join(config, "hypr/profiles"@)
}

pub fn user_dir_from(xdg: Option<String>, home: Option<String>) -> (d: String)
    ensures
        d@ == user_dir_spec(
            match xdg {
                Some(x) => Some(x@),
                None => None,
            },
            match home {
                Some(h) => Some(h@),
                None => None,
            },
        ),
{
    let config = match xdg {
        Some(x) => x,
        None => match home {
            Some(h) => join(h.as_str(), ".config"),
            None => {
                let d = String::from_str(".");
                proof {
                    reveal_strlit(".");
                }
                d
            },
        },
    };
    join(config.as_str(), "hypr/profiles")
}

/// The files `show` and `render` look for a profile in: the user's
/// directory first, then the shared one.
pub fn toml_candidates(name: &str, user_dir: &str) -> (c: Vec<String>)
    ensures
        strings_view(c@) == seq![
            path_join(user_dir@, name@ + ".toml"@),
            path_join("/etc/monitor-profiles"@, name@ + ".toml"@),
        ],
{
    let mut file = String::from_str(name);
    push_str(&mut file, ".toml");
    let mut c: Vec<String> = Vec::new();
    c.push(join(user_dir, file.as_str()));
    let sys = system_dir();
    c.push(join(sys.as_str(), file.as_str()));
    assert(strings_view(c@) =~= seq![
        path_join(user_dir@, name@ + ".toml"@),
        path_join("/etc/monitor-profiles"@, name@ + ".toml"@),
    ]);
    c
}

/// A file that yields a usable profile.
pub open spec fn usable(f: (Seq<char>, FileReadView)) -> bool {
    f.1 matches FileReadView::Parsed(Ok(_))
}

/// Loading never loses a file silently: every file that yields no profile
/// is named by a diagnostic, and the profiles kept are exactly one per
/// usable file.
pub proof fn unusable_files_are_reported(files: Seq<(Seq<char>, FileReadView)>, n: int)
    requires
        0 <= n <= files.len(),
    ensures
        forall|k: int|
            0 <= k < n && !usable(#[trigger] files[k]) ==> exists|j: int|
                0 <= j < collected(files, n).1.len() && collected(files, n).1[j].source
                    == files[k].0,
        collected(files, n).0.len() == usable_count(files, n),
    decreases n,
{
    if n > 0 {
        unusable_files_are_reported(files, n - 1);
        let (ps, ds) = collected(files, n - 1);
        let ds2 = collected(files, n).1;
        assert forall|k: int| 0 <= k < n && !usable(#[trigger] files[k]) implies exists|j: int|
            0 <= j < ds2.len() && ds2[j].source == files[k].0 by {
            if k < n - 1 {
                let j = choose|j: int| 0 <= j < ds.len() && ds[j].source == files[k].0;
                assert(ds2.len() >= ds.len());
                assert(ds2[j] == ds[j]);
            } else {
                assert(ds2[ds.len() as int].source == files[k].0);
            }
        }
    }
}

/// The number of usable files among the first `n`.
pub open spec fn usable_count(files: Seq<(Seq<char>, FileReadView)>, n: int) -> int
    decreases n,
{
    if n <= 0 {
        0
    } else {
        usable_count(files, n - 1) + if usable(files[n - 1]) {
            1int
        } else {
            0
        }
    }
}

/// Where each profile file of a directory is read from, and the name its
/// profile gets (its stem), in load order.
pub fn load_plan(dir: &str, names: &[String]) -> (r: Vec<(String, String)>)
    ensures
        r@.len() == load_order(strings_view(names@)).len(),
        forall|k: int|
            0 <= k < r@.len() ==> {
                &&& (#[trigger] r@[k]).0@ == path_join(dir@, load_order(strings_view(names@))[k])
                &&& r@[k].1@ == file_stem(load_order(strings_view(names@))[k])
            },
{
    let files = profile_file_names(names);
    let ghost order = load_order(strings_view(names@));
    let mut r: Vec<(String, String)> = Vec::new();
    let mut k: usize = 0;
    while k < files.len()
        invariant
            k <= files@.len(),
            strings_view(files@) == order,
            r@.len() == k,
            forall|j: int|
                0 <= j < k ==> {
                    &&& (#[trigger] r@[j]).0@ == path_join(dir@, order[j])
                    &&& r@[j].1@ == file_stem(order[j])
                },
        decreases files@.len() - k,
    {
        assert(order[k as int] == files@[k as int]@);
        let entry = (join(dir, files[k].as_str()), stem_of(files[k].as_str()));
        r.push(entry);
        k += 1;
    }
    r
}

/// The profiles of the usable files among the first `n`, in order.
pub open spec fn usable_profiles(files: Seq<(Seq<char>, FileReadView)>, n: int) -> Seq<ProfileView>
    decreases n,
{
    if n <= 0 {
        Seq::empty()
    } else {
        match files[n - 1].1 {
            FileReadView::Parsed(Ok((p, _))) => usable_profiles(files, n - 1).push(p),
            _ => usable_profiles(files, n - 1),
        }
    }
}

/// The files of a directory as loaded: each profile file in load order,
/// by its path, with what reading it gave.
pub open spec fn planned_files(dir: Seq<char>, names: Seq<Seq<char>>, reads: Seq<FileReadView>) -> Seq<
    (Seq<char>, FileReadView),
> {
    Seq::new(reads.len(), |k: int| (path_join(dir, load_order(names)[k]), reads[k]))
}

proof fn lemma_collected_profiles(files: Seq<(Seq<char>, FileReadView)>, n: int)
    requires
        0 <= n <= files.len(),
    ensures
        collected(files, n).0 == usable_profiles(files, n),
    decreases n,
{
    if n > 0 {
        lemma_collected_profiles(files, n - 1);
    }
}

/// Loading a directory: the entries that are profile files (`.toml`, not
/// hidden) are read in ascending name order, each from its path under the
/// directory; the profiles kept are exactly those of the files that read
/// and decode, in that order; and every other profile file is named by a
/// diagnostic. Other entries play no part.
pub proof fn load_law(dir: Seq<char>, names: Seq<Seq<char>>, reads: Seq<FileReadView>)
    requires
        reads.len() == load_order(names).len(),
    ensures
        sorted(load_order(names)),
        load_order(names).to_multiset() == profile_files(names, names.len() as int).to_multiset(),
        ({
            let files = planned_files(dir, names, reads);
            let n = files.len() as int;
            &&& collected(files, n).0 == usable_profiles(files, n)
            &&& forall|k: int|
                0 <= k < n && !usable(#[trigger] files[k]) ==> exists|j: int|
                    0 <= j < collected(files, n).1.len() && collected(files, n).1[j].source
                        == path_join(dir, load_order(names)[k])
        }),
{
    let leq = |a: Seq<char>, b: Seq<char>| name_leq(a, b);
    lemma_name_order();
    let f = profile_files(names, names.len() as int);
    f.lemma_sort_by_ensures(leq);
    let o = load_order(names);
    assert forall|i: int, j: int| 0 <= i < j < o.len() implies !str_lt(#[trigger] o[j], #[trigger] o[i]) by {
        assert(leq(o[i], o[j]));
    }
    let files = planned_files(dir, names, reads);
    lemma_collected_profiles(files, files.len() as int);
    unusable_files_are_reported(files, files.len() as int);
    assert forall|k: int| 0 <= k < files.len() implies (#[trigger] files[k]).0 == path_join(
        dir,
        o[k],
    ) by {}
}

} // verus!

//! The profile model.
use vstd::prelude::*;
use crate::num::{is_float_literal, nat_text, parse_u32, parse_u32_exec, is_float_literal_exec, push_nat};
use crate::text::{chars_of, find_char, find_char_exec, push_char, push_str, range_eq, string_of, trim, trim_range};

verus! {

/// How the internal panel is handled.
#[derive(Debug, Clone, Copy, PartialEq, Eq, Structural)]
pub enum EdpPolicy {
    Auto,
    Enable,
    Disable,
}

/// The preferred render GPU.
#[derive(Debug, Clone, Copy, PartialEq, Eq, Structural)]
pub enum GpuPref {
    Auto,
    Igpu,
    Dgpu,
}

impl EdpPolicy {
    /// The keyword that names the policy.
    pub open spec fn keyword(self) -> Seq<char> {
        match self {
            EdpPolicy::Auto => "auto"@,
            EdpPolicy::Enable => "enable"@,
            EdpPolicy::Disable => "disable"@,
        }
    }

    /// The policy a keyword names, if any.
    pub open spec fn from_keyword(s: Seq<char>) -> Option<EdpPolicy> {
        if s == "auto"@ {
            Some(EdpPolicy::Auto)
        } else if s == "enable"@ {
            Some(EdpPolicy::Enable)
        } else if s == "disable"@ {
            Some(EdpPolicy::Disable)
        } else {
            None
        }
    }

    pub fn as_str(self) -> (s: &'static str)
        ensures
            s@ == self.keyword(),
    {
        match self {
            EdpPolicy::Auto => "auto",
            EdpPolicy::Enable => "enable",
            EdpPolicy::Disable => "disable",
        }
    }

    pub fn parse(s: &str) -> (r: Option<Self>)
        ensures
            r == Self::from_keyword(s@),
    {
        let v = chars_of(s);
        let n = v.len();
        assert(v@.subrange(0, n as int) =~= s@);
        if range_eq(&v, 0, n, "auto") {
            Some(EdpPolicy::Auto)
        } else if range_eq(&v, 0, n, "enable") {
            Some(EdpPolicy::Enable)
        } else if range_eq(&v, 0, n, "disable") {
            Some(EdpPolicy::Disable)
        } else {
            None
        }
    }
}

impl Default for EdpPolicy {
    fn default() -> (r: Self)
        ensures
            r == EdpPolicy::Auto,
    {
        EdpPolicy::Auto
    }
}

impl GpuPref {
    /// The keyword that names the preference.
    pub open spec fn keyword(self) -> Seq<char> {
        match self {
            GpuPref::Auto => "auto"@,
            GpuPref::Igpu => "igpu"@,
            GpuPref::Dgpu => "dgpu"@,
        }
    }

    /// The preference a keyword names, if any.
    pub open spec fn from_keyword(s: Seq<char>) -> Option<GpuPref> {
        if s == "auto"@ {
            Some(GpuPref::Auto)
        } else if s == "igpu"@ {
            Some(GpuPref::Igpu)
        } else if s == "dgpu"@ {
            Some(GpuPref::Dgpu)
        } else {
            None
        }
    }

    pub fn as_str(self) -> (s: &'static str)
        ensures
            s@ == self.keyword(),
    {
        match self {
            GpuPref::Auto => "auto",
            GpuPref::Igpu => "igpu",
            GpuPref::Dgpu => "dgpu",
        }
    }

    pub fn parse(s: &str) -> (r: Option<Self>)
        ensures
            r == Self::from_keyword(s@),
    {
        let v = chars_of(s);
        let n = v.len();
        assert(v@.subrange(0, n as int) =~= s@);
        if range_eq(&v, 0, n, "auto") {
            Some(GpuPref::Auto)
        } else if range_eq(&v, 0, n, "igpu") {
            Some(GpuPref::Igpu)
        } else if range_eq(&v, 0, n, "dgpu") {
            Some(GpuPref::Dgpu)
        } else {
            None
        }
    }
}

impl Default for GpuPref {
    fn default() -> (r: Self)
        ensures
            r == GpuPref::Auto,
    {
        GpuPref::Auto
    }
}

/// A floating-point quantity (a scale or a refresh rate), held as the `f64`
/// literal that denotes it: its value is what `str::parse::<f64>` gives for
/// `literal`. Arithmetic on it happens outside this library, and so does a
/// comparison of values: `==` on numbers (and on the types that hold them)
/// compares the literals, so `60` and `60.0` are unequal here.
#[derive(Debug, Clone, PartialEq)]
pub struct Number {
    pub literal: String,
}

impl View for Number {
    type V = Seq<char>;

    open spec fn view(&self) -> Seq<char> {
        self.literal@
    }
}

impl Number {
    /// The literal of `1.0` as `f64`'s `Display` writes it.
    pub fn one() -> (n: Number)
        ensures
            n@ == seq!['1'],
    {
        let n = Number { literal: String::from_str("1") };
        proof {
            reveal_strlit("1");
        }
        n
    }

    /// The literal of `0.0` as `f64`'s `Display` writes it.
    pub fn zero() -> (n: Number)
        ensures
            n@ == seq!['0'],
    {
        let n = Number { literal: String::from_str("0") };
        proof {
            reveal_strlit("0");
        }
        n
    }
}

/// A display mode: `WIDTHxHEIGHT`, with a refresh rate that is `0` when
/// none was given.
#[derive(Debug, Clone, PartialEq)]
pub struct Mode {
    pub width: u32,
    pub height: u32,
    pub refresh: Number,
}

#[verifier::ext_equal]
pub struct ModeView {
    pub width: u32,
    pub height: u32,
    pub refresh: Seq<char>,
}

impl View for Mode {
    type V = ModeView;

    open spec fn view(&self) -> ModeView {
        ModeView { width: self.width, height: self.height, refresh: self.refresh@ }
    }
}

pub open spec fn mode_opt_view(m: Option<Mode>) -> Option<ModeView> {
    match m {
        Some(m) => Some(m@),
        None => None,
    }
}

/// `Mode::parse`: `WIDTHxHEIGHT` with an optional `@REFRESH`, both sides of
/// the `x` and the refresh trimmed; the dimensions are positive `u32`s and
/// the refresh an `f64` literal.
pub open spec fn mode_parse(s: Seq<char>) -> Option<ModeView> {
    let at = find_char(s, '@');
    let dims = match at {
        Some(i) => s.take(i),
        None => s,
    };
    let refresh = match at {
        Some(i) => trim(s.skip(i + 1)),
        None => seq!['0'],
    };
    let refresh_ok = match at {
        Some(i) => is_float_literal(refresh),
        None => true,
    };
    let d = trim(dims);
    match find_char(d, 'x') {
        None => None,
        Some(j) => match (parse_u32(trim(d.take(j))), parse_u32(trim(d.skip(j + 1)))) {
            (Some(w), Some(h)) => if refresh_ok && w > 0 && h > 0 {
                Some(ModeView { width: w, height: h, refresh })
            } else {
                None
            },
            _ => None,
        },
    }
}

impl Mode {
    pub fn parse(s: &str) -> (r: Option<Mode>)
        ensures
            mode_opt_view(r) == mode_parse(s@),
    {
        let v = chars_of(s);
        assert(v@.subrange(0, v@.len() as int) =~= s@);
        parse_mode_in(&v, 0, v.len())
    }
}

/// A mode as it is written: `WxH`, then `@` and the refresh rate's text
/// when the rate is given as positive.
pub open spec fn mode_text(m: ModeView, refresh: Option<Seq<char>>) -> Seq<char> {
    nat_text(m.width as nat) + seq!['x'] + nat_text(m.height as nat) + match refresh {
        Some(r) => seq!['@'] + r,
        None => Seq::empty(),
    }
}

impl Mode {
    /// The mode as it is written, given the text of its refresh rate when
    /// that rate is positive (two decimals at most, trailing zeros dropped).
    pub fn text(&self, refresh: &Option<String>) -> (s: String)
        ensures
            s@ == mode_text(
                self@,
                match refresh {
                    Some(r) => Some(r@),
                    None => None,
                },
            ),
    {
        let mut s = String::new();
        push_nat(&mut s, self.width as u64);
        push_char(&mut s, 'x');
        push_nat(&mut s, self.height as u64);
        match refresh {
            Some(r) => {
                push_char(&mut s, '@');
                push_str(&mut s, r.as_str());
            },
            None => {},
        }
        assert(s@ =~= mode_text(
            self@,
            match refresh {
                Some(r) => Some(r@),
                None => None,
            },
        ));
        s
    }
}

proof fn lemma_digits_free(n: nat, c: char)
    requires
        !crate::num::is_digit(c),
    ensures
        forall|i: int| 0 <= i < nat_text(n).len() ==> nat_text(n)[i] != c,
        nat_text(n).len() > 0,
        !crate::text::is_ws(nat_text(n)[0]),
        !crate::text::is_ws(nat_text(n).last()),
        trim(nat_text(n)) == nat_text(n),
        parse_u32(nat_text(n)) == if n <= u32::MAX {
            Some(n as u32)
        } else {
            None
        },
{
    crate::num::lemma_nat_text(n);
    let t = nat_text(n);
    assert(crate::num::is_digit(t[0]));
    assert(crate::num::is_digit(t[t.len() - 1]));
    crate::text::lemma_trim_start_plain(t);
    assert(crate::text::trim_end(t) == t);
}

/// A mode written out reads back: parsing `WxH` or `WxH@R` (with `R` an
/// `f64` literal without surrounding whitespace) gives that mode, and
/// writing the parsed mode with the same refresh text gives the text back.
pub proof fn mode_text_parses_back(m: ModeView, refresh: Option<Seq<char>>)
    requires
        m.width > 0,
        m.height > 0,
        refresh matches Some(r) ==> is_float_literal(r) && trim(r) == r,
    ensures
        mode_parse(mode_text(m, refresh)) matches Some(z) && z.width == m.width && z.height
            == m.height && mode_text(z, refresh) == mode_text(m, refresh),
        refresh matches Some(r) ==> mode_parse(mode_text(m, refresh)) == Some(
            ModeView { refresh: r, ..m },
        ),
{
    let w = nat_text(m.width as nat);
    let h = nat_text(m.height as nat);
    lemma_digits_free(m.width as nat, '@');
    lemma_digits_free(m.height as nat, '@');
    lemma_digits_free(m.width as nat, 'x');
    lemma_digits_free(m.height as nat, 'x');
    let d = w + seq!['x'] + h;
    let s = mode_text(m, refresh);
    assert forall|i: int| 0 <= i < d.len() implies d[i] != '@' by {
        if i < w.len() {
            assert(d[i] == w[i]);
        } else if i > w.len() {
            assert(d[i] == h[i - w.len() - 1]);
        }
    }
    assert(d[0] == w[0]);
    assert(d.last() == h.last());
    crate::text::lemma_trim_start_plain(d);
    assert(crate::text::trim_end(d) == d);
    assert(trim(d) == d);
    assert(d[w.len() as int] == 'x');
    crate::text::lemma_find_first(d, 'x', 0, w.len() as int);
    assert(d.take(w.len() as int) =~= w);
    assert(d.skip(w.len() as int + 1) =~= h);
    match refresh {
        Some(r) => {
            assert(s =~= d + seq!['@'] + r);
            assert(s[d.len() as int] == '@');
            assert forall|i: int| 0 <= i < d.len() implies s[i] != '@' by {
                assert(s[i] == d[i]);
            }
            crate::text::lemma_find_first(s, '@', 0, d.len() as int);
            assert(s.take(d.len() as int) =~= d);
            assert(s.skip(d.len() as int + 1) =~= r);
        },
        None => {
            assert(s =~= d);
            assert forall|i: int| 0 <= i < s.len() implies s[i] != '@' by {
                assert(s[i] == d[i]);
            }
            crate::text::lemma_find_char_from(s, '@', 0);
            if find_char(s, '@') is Some {
                let k = find_char(s, '@').unwrap();
                assert(s[k] == '@');
            }
        },
    }
}

/// A mode's text in canonical form parses and writes back unchanged:
/// `WxH` (decimal, no sign or leading zeros, both positive) gives itself
/// written without a refresh rate, and `WxH@R` (with `R` an `f64` literal
/// without surrounding whitespace) gives itself written with `R`.
pub proof fn mode_parse_writes_back(width: u32, height: u32, refresh: Option<Seq<char>>)
    requires
        width > 0,
        height > 0,
        refresh matches Some(r) ==> is_float_literal(r) && trim(r) == r,
    ensures
        ({
            let s = nat_text(width as nat) + seq!['x'] + nat_text(height as nat) + match refresh {
                Some(r) => seq!['@'] + r,
                None => Seq::empty(),
            };
            mode_parse(s) matches Some(z) && z.width == width && z.height == height
                && mode_text(z, refresh) == s
        }),
{
    let m = ModeView { width, height, refresh: seq!['0'] };
    mode_text_parses_back(m, refresh);
    assert(mode_text(m, refresh) == nat_text(width as nat) + seq!['x'] + nat_text(height as nat)
        + match refresh {
        Some(r) => seq!['@'] + r,
        None => Seq::<char>::empty(),
    });
}

/// `Mode::parse` on `v[lo..hi]`.
pub fn parse_mode_in(v: &Vec<char>, lo: usize, hi: usize) -> (r: Option<Mode>)
    requires
        lo <= hi <= v@.len(),
    ensures
        mode_opt_view(r) == mode_parse(v@.subrange(lo as int, hi as int)),
{
    let ghost s = v@.subrange(lo as int, hi as int);
    let at = find_char_exec(v, lo, hi, '@');
    let dims_hi;
    let refresh;
    match at {
        Some(i) => {
            dims_hi = i;
            let (a, b) = trim_range(v, i + 1, hi);
            assert(s.skip(i - lo + 1) =~= v@.subrange(i + 1, hi as int));
            if !is_float_literal_exec(v, a, b) {
                return None;
            }
            refresh = Number { literal: string_of(v, a, b) };
        },
        None => {
            dims_hi = hi;
            refresh = Number::zero();
        },
    }
    assert(v@.subrange(lo as int, dims_hi as int) =~= match find_char(s, '@') {
        Some(i) => s.take(i),
        None => s,
    });
    let (dl, dh) = trim_range(v, lo, dims_hi);
    let ghost d = v@.subrange(dl as int, dh as int);
    match find_char_exec(v, dl, dh, 'x') {
        None => None,
        Some(j) => {
            let (wl, wh) = trim_range(v, dl, j);
            let (hl, hh) = trim_range(v, j + 1, dh);
            assert(d.take(j - dl) =~= v@.subrange(dl as int, j as int));
            assert(d.skip(j - dl + 1) =~= v@.subrange(j + 1, dh as int));
            let w = parse_u32_exec(v, wl, wh);
            let h = parse_u32_exec(v, hl, hh);
            match (w, h) {
                (Some(w), Some(h)) => {
                    if w > 0 && h > 0 {
                        Some(Mode { width: w, height: h, refresh })
                    } else {
                        None
                    }
                },
                _ => None,
            }
        },
    }
}

/// One monitor of a profile.
#[derive(Debug, Clone, PartialEq)]
pub struct Monitor {
    pub output: String,
    pub mode: Option<Mode>,
    pub scale: Number,
    pub position: Option<(i32, i32)>,
    pub transform: u8,
    pub enabled: bool,
}

#[verifier::ext_equal]
pub struct MonitorView {
    pub output: Seq<char>,
    pub mode: Option<ModeView>,
    pub scale: Seq<char>,
    pub position: Option<(i32, i32)>,
    pub transform: u8,
    pub enabled: bool,
}

impl View for Monitor {
    type V = MonitorView;

    open spec fn view(&self) -> MonitorView {
        MonitorView {
            output: self.output@,
            mode: mode_opt_view(self.mode),
            scale: self.scale@,
            position: self.position,
            transform: self.transform,
            enabled: self.enabled,
        }
    }
}

/// A monitor with every field but the output at its default.
pub open spec fn default_monitor(output: Seq<char>) -> MonitorView {
    MonitorView {
        output,
        mode: None,
        scale: seq!['1'],
        position: None,
        transform: 0,
        enabled: true,
    }
}

impl Default for Monitor {
    fn default() -> (m: Self)
        ensures
            m@ == default_monitor(Seq::empty()),
    {
        Monitor {
            output: String::new(),
            mode: None,
            scale: Number::one(),
            position: None,
            transform: 0,
            enabled: true,
        }
    }
}

/// A workspace pinned to a monitor.
#[derive(Debug, Clone, PartialEq)]
pub struct WorkspaceRule {
    pub workspace: String,
    pub monitor: String,
    pub default: bool,
}

#[verifier::ext_equal]
pub struct WorkspaceRuleView {
    pub workspace: Seq<char>,
    pub monitor: Seq<char>,
    pub default: bool,
}

impl View for WorkspaceRule {
    type V = WorkspaceRuleView;

    open spec fn view(&self) -> WorkspaceRuleView {
        WorkspaceRuleView {
            workspace: self.workspace@,
            monitor: self.monitor@,
            default: self.default,
        }
    }
}

/// A named layout profile.
#[derive(Debug, Clone, PartialEq)]
pub struct Profile {
    pub name: String,
    pub description: String,
    pub matches: Vec<String>,
    pub edp: EdpPolicy,
    pub gpu: GpuPref,
    pub hooks: Vec<String>,
    pub priority: i64,
    pub monitors: Vec<Monitor>,
    pub workspaces: Vec<WorkspaceRule>,
}

#[verifier::ext_equal]
pub struct ProfileView {
    pub name: Seq<char>,
    pub description: Seq<char>,
    pub matches: Seq<Seq<char>>,
    pub edp: EdpPolicy,
    pub gpu: GpuPref,
    pub hooks: Seq<Seq<char>>,
    pub priority: i64,
    pub monitors: Seq<MonitorView>,
    pub workspaces: Seq<WorkspaceRuleView>,
}

pub open spec fn strings_view(v: Seq<String>) -> Seq<Seq<char>> {
    v.map_values(|s: String| s@)
}

pub open spec fn monitors_view(v: Seq<Monitor>) -> Seq<MonitorView> {
    v.map_values(|m: Monitor| m@)
}

pub open spec fn rules_view(v: Seq<WorkspaceRule>) -> Seq<WorkspaceRuleView> {
    v.map_values(|w: WorkspaceRule| w@)
}

impl View for Profile {
    type V = ProfileView;

    open spec fn view(&self) -> ProfileView {
        ProfileView {
            name: self.name@,
            description: self.description@,
            matches: strings_view(self.matches@),
            edp: self.edp,
            gpu: self.gpu,
            hooks: strings_view(self.hooks@),
            priority: self.priority,
            monitors: monitors_view(self.monitors@),
            workspaces: rules_view(self.workspaces@),
        }
    }
}

/// Keywords round-trip: a policy's keyword names that policy.
pub proof fn edp_keyword_round_trip(e: EdpPolicy)
    ensures
        EdpPolicy::from_keyword(e.keyword()) == Some(e),
{
    reveal_strlit("auto");
    reveal_strlit("enable");
    reveal_strlit("disable");
    assert("enable"@[0] != "auto"@[0]);
    assert("disable"@[0] != "auto"@[0]);
    assert("disable"@[0] != "enable"@[0]);
}

/// Keywords round-trip: a preference's keyword names that preference.
pub proof fn gpu_keyword_round_trip(g: GpuPref)
    ensures
        GpuPref::from_keyword(g.keyword()) == Some(g),
{
    reveal_strlit("auto");
    reveal_strlit("igpu");
    reveal_strlit("dgpu");
    assert("igpu"@[0] != "auto"@[0]);
    assert("dgpu"@[0] != "auto"@[0]);
    assert("dgpu"@[0] != "igpu"@[0]);
}

/// A keyword that parses names exactly the policy it is the keyword of.
pub proof fn edp_parse_is_keyword(s: Seq<char>)
    ensures
        EdpPolicy::from_keyword(s) matches Some(e) ==> e.keyword() == s,
{
}

/// A keyword that parses names exactly the preference it is the keyword of.
pub proof fn gpu_parse_is_keyword(s: Seq<char>)
    ensures
        GpuPref::from_keyword(s) matches Some(g) ==> g.keyword() == s,
{
}

} // verus!

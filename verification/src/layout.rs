//! Geometry resolution: which connected output each monitor of a profile
//! lands on, and where in the left-to-right row it is placed.
//!
//! Scale snapping and the logical size of a mode at a scale are
//! floating-point computations; they arrive here as [`Metrics`], one per
//! monitor, and everything decided from them is verified.
use vstd::prelude::*;
use crate::model::{Mode, ModeView, Monitor, MonitorView, Number, Profile, mode_opt_view, monitors_view};
use crate::text::{chars_of, range_eq, starts_with_at, string_of, strip_prefix, trim, trim_range};

verus! {

/// An output the compositor reports as connected.
#[derive(Debug, Clone, PartialEq)]
pub struct ConnectedOutput {
    pub name: String,
    pub description: String,
}

#[verifier::ext_equal]
pub struct ConnectedView {
    pub name: Seq<char>,
    pub description: Seq<char>,
}

impl View for ConnectedOutput {
    type V = ConnectedView;

    open spec fn view(&self) -> ConnectedView {
        ConnectedView { name: self.name@, description: self.description@ }
    }
}

pub open spec fn connected_view(c: Seq<ConnectedOutput>) -> Seq<ConnectedView> {
    c.map_values(|o: ConnectedOutput| o@)
}

/// A monitor's mode at its snapped scale: the scale, `fmt_num` of it, and the
/// mode's width and height divided by it, rounded half up.
#[derive(Debug, Clone, PartialEq)]
pub struct Snapped {
    pub scale: Number,
    pub scale_text: String,
    pub width: i32,
    pub height: i32,
}

#[verifier::ext_equal]
pub struct SnappedView {
    pub scale: Seq<char>,
    pub scale_text: Seq<char>,
    pub width: i32,
    pub height: i32,
}

impl View for Snapped {
    type V = SnappedView;

    open spec fn view(&self) -> SnappedView {
        SnappedView {
            scale: self.scale@,
            scale_text: self.scale_text@,
            width: self.width,
            height: self.height,
        }
    }
}

/// The floating-point facts about one monitor: `fmt_num` of its mode's
/// refresh rate when the monitor has a mode with a positive rate, `fmt_num`
/// of its scale target, whether that target counts as `1.0` (it is not
/// more than `f64::EPSILON` away from it), and, when it has a mode, that
/// mode snapped.
#[derive(Debug, Clone, PartialEq)]
pub struct Metrics {
    pub refresh_text: Option<String>,
    pub scale_text: String,
    pub scale_is_default: bool,
    pub snapped: Option<Snapped>,
}

#[verifier::ext_equal]
pub struct MetricsView {
    pub refresh_text: Option<Seq<char>>,
    pub scale_text: Seq<char>,
    pub scale_is_default: bool,
    pub snapped: Option<SnappedView>,
}

impl View for Metrics {
    type V = MetricsView;

    open spec fn view(&self) -> MetricsView {
        MetricsView {
            refresh_text: match self.refresh_text {
                Some(t) => Some(t@),
                None => None,
            },
            scale_text: self.scale_text@,
            scale_is_default: self.scale_is_default,
            snapped: match self.snapped {
                Some(s) => Some(s@),
                None => None,
            },
        }
    }
}

pub open spec fn metrics_view(m: Seq<Metrics>) -> Seq<MetricsView> {
    m.map_values(|x: Metrics| x@)
}

/// One metrics entry per monitor, with a snapped mode exactly for the
/// monitors that have a mode.
pub open spec fn metrics_fit(ms: Seq<MonitorView>, mts: Seq<MetricsView>) -> bool {
    &&& mts.len() == ms.len()
    &&& forall|i: int| 0 <= i < ms.len() ==> (#[trigger] ms[i]).mode is Some == mts[i].snapped is Some
}

/// A monitor placed on a connected output.
#[derive(Debug, PartialEq)]
pub struct ResolvedOutput {
    pub name: String,
    pub selector: String,
    pub mode: Option<Mode>,
    pub position: (i32, i32),
    pub scale: Number,
    pub transform: u8,
    pub enabled: bool,
}

#[verifier::ext_equal]
pub struct ResolvedOutputView {
    pub name: Seq<char>,
    pub selector: Seq<char>,
    pub mode: Option<ModeView>,
    pub position: (i32, i32),
    pub scale: Seq<char>,
    pub transform: u8,
    pub enabled: bool,
}

impl View for ResolvedOutput {
    type V = ResolvedOutputView;

    open spec fn view(&self) -> ResolvedOutputView {
        ResolvedOutputView {
            name: self.name@,
            selector: self.selector@,
            mode: mode_opt_view(self.mode),
            position: self.position,
            scale: self.scale@,
            transform: self.transform,
            enabled: self.enabled,
        }
    }
}

/// The placed outputs, the selectors no connected output answered, and
/// warnings.
#[derive(Debug, PartialEq)]
pub struct ResolvedLayout {
    pub outputs: Vec<ResolvedOutput>,
    pub unmatched: Vec<String>,
    pub warnings: Vec<String>,
}

#[verifier::ext_equal]
pub struct LayoutView {
    pub outputs: Seq<ResolvedOutputView>,
    pub unmatched: Seq<Seq<char>>,
    pub warnings: Seq<Seq<char>>,
}

impl View for ResolvedLayout {
    type V = LayoutView;

    open spec fn view(&self) -> LayoutView {
        LayoutView {
            outputs: self.outputs@.map_values(|o: ResolvedOutput| o@),
            unmatched: self.unmatched@.map_values(|s: String| s@),
            warnings: self.warnings@.map_values(|s: String| s@),
        }
    }
}

/// A scale `k/120` suits a `width`x`height` mode when it divides both
/// dimensions into whole pixels: `k` divides `120 * width` and
/// `120 * height`.
pub open spec fn exact_step(width: u32, height: u32, k: int) -> bool {
    (120 * width) % k == 0 && (120 * height) % k == 0
}

/// The suitable `k` among `120..end`, ascending.
pub open spec fn steps_below(width: u32, height: u32, end: int) -> Seq<u64>
    decreases end - 120,
{
    if end <= 120 {
        Seq::empty()
    } else {
        let before = steps_below(width, height, end - 1);
        if exact_step(width, height, end - 1) {
            before.push((end - 1) as u64)
        } else {
            before
        }
    }
}

/// The scales (in 120ths) from 1 to 3 that a mode allows, ascending: every
/// `k` in `120..=360` that divides both `120 * width` and `120 * height`.
/// Choosing the one nearest a requested scale is floating point, done
/// outside this library.
pub fn scale_steps(width: u32, height: u32) -> (r: Vec<u64>)
    ensures
        r@ == steps_below(width, height, 361),
{
    let w: u64 = width as u64 * 120;
    let h: u64 = height as u64 * 120;
    let mut r: Vec<u64> = Vec::new();
    let mut k: u64 = 120;
    while k <= 360
        invariant
            120 <= k <= 361,
            w == 120 * width,
            h == 120 * height,
            r@ == steps_below(width, height, k as int),
        decreases 361 - k,
    {
        if w % k == 0 && h % k == 0 {
            r.push(k);
        }
        k += 1;
    }
    r
}

/// A `desc:` selector picks an output whose description starts with the
/// trimmed rest; any other selector picks the output of that exact name.
pub open spec fn selects_spec(selector: Seq<char>, o: ConnectedView) -> bool {
    match strip_prefix(selector, "desc:"@) {
        Some(d) => trim(d).is_prefix_of(o.description),
        None => o.name == selector,
    }
}

/// The first output from `i` on that `selector` picks.
pub open spec fn find_selected(selector: Seq<char>, c: Seq<ConnectedView>, i: int) -> Option<int>
    decreases c.len() - i,
{
    if i < 0 || i >= c.len() {
        None
    } else if selects_spec(selector, c[i]) {
        Some(i)
    } else {
        find_selected(selector, c, i + 1)
    }
}

/// The scale an output is given: the snapped one when the monitor has a
/// mode, else its target.
pub open spec fn resolved_scale(m: MonitorView, mt: MetricsView) -> Seq<char> {
    match (m.mode, mt.snapped) {
        (Some(_), Some(s)) => s.scale,
        _ => m.scale,
    }
}

/// How far a placed monitor moves the row: its logical width (height when
/// rotated by an odd transform) when it is enabled, has a mode and has no
/// explicit position; nothing otherwise.
pub open spec fn advance(m: MonitorView, mt: MetricsView) -> int {
    if m.enabled && m.position is None {
        match (m.mode, mt.snapped) {
            (Some(_), Some(s)) => if m.transform % 2 == 1 {
                s.height as int
            } else {
                s.width as int
            },
            _ => 0,
        }
    } else {
        0
    }
}

/// An enabled monitor with neither a mode nor a position cannot be placed
/// in the row.
pub open spec fn overlaps(m: MonitorView) -> bool {
    m.enabled && m.position is None && m.mode is None
}

pub open spec fn overlap_warning(output: Seq<char>) -> Seq<char> {
    output + ": no mode and no explicit position; later monitors may overlap"@
}

pub open spec fn empty_layout() -> LayoutView {
    LayoutView { outputs: Seq::empty(), unmatched: Seq::empty(), warnings: Seq::empty() }
}

/// The layout after the first `n` monitors, and the row's `x` there.
pub open spec fn resolve_row(
    ms: Seq<MonitorView>,
    mts: Seq<MetricsView>,
    c: Seq<ConnectedView>,
    n: int,
) -> (LayoutView, int)
    decreases n,
{
    if n <= 0 {
        (empty_layout(), 0)
    } else {
        let (l, x) = resolve_row(ms, mts, c, n - 1);
        let m = ms[n - 1];
        let mt = mts[n - 1];
        match find_selected(m.output, c, 0) {
            None => (LayoutView { unmatched: l.unmatched.push(m.output), ..l }, x),
            Some(k) => {
                let out = ResolvedOutputView {
                    name: c[k].name,
                    selector: m.output,
                    mode: m.mode,
                    position: match m.position {
                        Some(p) => p,
                        None => (x as i32, 0i32),
                    },
                    scale: resolved_scale(m, mt),
                    transform: m.transform,
                    enabled: m.enabled,
                };
                let warnings = if overlaps(m) {
                    l.warnings.push(overlap_warning(m.output))
                } else {
                    l.warnings
                };
                (
                    LayoutView { outputs: l.outputs.push(out), unmatched: l.unmatched, warnings },
                    x + advance(m, mt),
                )
            },
        }
    }
}

/// Every `x` the row passes through fits in `i32`.
pub open spec fn row_in_range(
    ms: Seq<MonitorView>,
    mts: Seq<MetricsView>,
    c: Seq<ConnectedView>,
) -> bool {
    forall|n: int|
        0 <= n <= ms.len() ==> i32::MIN <= #[trigger] resolve_row(ms, mts, c, n).1 <= i32::MAX
}

/// `resolve`: the layout after all monitors.
pub open spec fn resolve_spec(
    ms: Seq<MonitorView>,
    mts: Seq<MetricsView>,
    c: Seq<ConnectedView>,
) -> LayoutView {
    resolve_row(ms, mts, c, ms.len() as int).0
}

/// The indices of the monitors that were placed, in order: the monitor
/// behind each output of the layout.
pub open spec fn placed(ms: Seq<MonitorView>, c: Seq<ConnectedView>, n: int) -> Seq<int>
    decreases n,
{
    if n <= 0 {
        Seq::empty()
    } else if find_selected(ms[n - 1].output, c, 0) is Some {
        placed(ms, c, n - 1).push(n - 1)
    } else {
        placed(ms, c, n - 1)
    }
}

/// Whether `selector` picks `o`.
pub fn selects(selector: &str, o: &ConnectedOutput) -> (b: bool)
    ensures
        b == selects_spec(selector@, o@),
{
    let v = chars_of(selector);
    let n = v.len();
    assert(v@.subrange(0, n as int) =~= selector@);
    proof {
        reveal_strlit("desc:");
    }
    if starts_with_at(&v, 0, n, "desc:") {
        assert(selector@.skip(5) =~= v@.subrange(5, n as int));
        let (a, b) = trim_range(&v, 5, n);
        let needle = string_of(&v, a, b);
        let d = chars_of(o.description.as_str());
        let dn = d.len();
        assert(d@.subrange(0, dn as int) =~= o.description@);
        starts_with_at(&d, 0, dn, needle.as_str())
    } else {
        let w = chars_of(o.name.as_str());
        let wn = w.len();
        assert(w@.subrange(0, wn as int) =~= o.name@);
        range_eq(&w, 0, wn, selector)
    }
}

/// The index of the first connected output that `selector` picks.
fn find_output(selector: &str, connected: &[ConnectedOutput]) -> (r: Option<usize>)
    ensures
        match r {
            Some(k) => find_selected(selector@, connected_view(connected@), 0) == Some(k as int),
            None => find_selected(selector@, connected_view(connected@), 0) is None,
        },
        r matches Some(k) ==> k < connected@.len(),
{
    let ghost c = connected_view(connected@);
    let mut i: usize = 0;
    while i < connected.len()
        invariant
            i <= connected@.len(),
            c == connected_view(connected@),
            find_selected(selector@, c, 0) == find_selected(selector@, c, i as int),
        decreases connected@.len() - i,
    {
        if selects(selector, &connected[i]) {
            return Some(i);
        }
        i += 1;
    }
    None
}

/// A copy of a mode.
pub fn copy_mode(m: &Option<Mode>) -> (r: Option<Mode>)
    ensures
        mode_opt_view(r) == mode_opt_view(*m),
{
    match m {
        Some(x) => Some(
            Mode {
                width: x.width,
                height: x.height,
                refresh: Number { literal: x.refresh.literal.clone() },
            },
        ),
        None => None,
    }
}

/// The scale `monitor` is given, as `resolved_scale` says.
fn scale_for(monitor: &Monitor, metrics: &Metrics) -> (n: Number)
    ensures
        n@ == resolved_scale(monitor@, metrics@),
{
    match (&monitor.mode, &metrics.snapped) {
        (Some(_), Some(s)) => Number { literal: s.scale.literal.clone() },
        _ => Number { literal: monitor.scale.literal.clone() },
    }
}

/// Whether `metrics` fits the monitors of `profile` and the row stays in
/// `i32` on `connected`: what [`resolve`] asks of its arguments.
pub fn row_fits(profile: &Profile, connected: &[ConnectedOutput], metrics: &[Metrics]) -> (b: bool)
    ensures
        b == (metrics_fit(profile@.monitors, metrics_view(metrics@)) && row_in_range(
            profile@.monitors,
            metrics_view(metrics@),
            connected_view(connected@),
        )),
{
    let ghost ms = profile@.monitors;
    let ghost mts = metrics_view(metrics@);
    let ghost c = connected_view(connected@);
    if metrics.len() != profile.monitors.len() {
        return false;
    }
    let mut i: usize = 0;
    while i < metrics.len()
        invariant
            i <= metrics@.len(),
            metrics@.len() == profile.monitors@.len(),
            ms == profile@.monitors,
            mts == metrics_view(metrics@),
            forall|j: int| 0 <= j < i ==> (#[trigger] ms[j]).mode is Some == mts[j].snapped is Some,
        decreases metrics@.len() - i,
    {
        let m = &profile.monitors[i];
        let t = &metrics[i];
        assert(ms[i as int] == m@);
        assert(mts[i as int] == t@);
        if m.mode.is_some() != t.snapped.is_some() {
            return false;
        }
        i += 1;
    }
    assert(metrics_fit(ms, mts));
    let mut x: i64 = 0;
    let mut n: usize = 0;
    while n < profile.monitors.len()
        invariant
            n <= ms.len(),
            ms == profile@.monitors,
            mts == metrics_view(metrics@),
            c == connected_view(connected@),
            metrics_fit(ms, mts),
            x == resolve_row(ms, mts, c, n as int).1,
            forall|j: int|
                0 <= j <= n ==> i32::MIN <= #[trigger] resolve_row(ms, mts, c, j).1 <= i32::MAX,
        decreases ms.len() - n,
    {
        let m = &profile.monitors[n];
        let t = &metrics[n];
        assert(ms[n as int] == m@);
        assert(mts[n as int] == t@);
        let found = find_output(m.output.as_str(), connected);
        let mut step: i64 = 0;
        if found.is_some() && m.enabled && m.position.is_none() {
            match (&m.mode, &t.snapped) {
                (Some(_), Some(s)) => {
                    step = if m.transform % 2 == 1 {
                        s.height as i64
                    } else {
                        s.width as i64
                    };
                },
                _ => {},
            }
        }
        x = x + step;
        n += 1;
        assert(x == resolve_row(ms, mts, c, n as int).1);
        if x < i32::MIN as i64 || x > i32::MAX as i64 {
            return false;
        }
    }
    true
}

/// `resolve`, with the index of the monitor behind each output.
pub fn resolve_placed(profile: &Profile, connected: &[ConnectedOutput], metrics: &[Metrics]) -> (r:
    (ResolvedLayout, Vec<usize>))
    requires
        metrics_fit(profile@.monitors, metrics_view(metrics@)),
        row_in_range(profile@.monitors, metrics_view(metrics@), connected_view(connected@)),
    ensures
        r.0@ == resolve_spec(profile@.monitors, metrics_view(metrics@), connected_view(connected@)),
        r.1@.map_values(|i: usize| i as int) == placed(
            profile@.monitors,
            connected_view(connected@),
            profile@.monitors.len() as int,
        ),
{
    let ghost ms = profile@.monitors;
    let ghost mts = metrics_view(metrics@);
    let ghost c = connected_view(connected@);
    let mut l = ResolvedLayout { outputs: Vec::new(), unmatched: Vec::new(), warnings: Vec::new() };
    let mut x: i32 = 0;
    let mut idx: Vec<usize> = Vec::new();
    let mut n: usize = 0;
    assert(l@ =~= empty_layout());
    while n < profile.monitors.len()
        invariant
            n <= ms.len(),
            ms == profile@.monitors,
            mts == metrics_view(metrics@),
            c == connected_view(connected@),
            metrics_fit(ms, mts),
            row_in_range(ms, mts, c),
            l@ == resolve_row(ms, mts, c, n as int).0,
            x as int == resolve_row(ms, mts, c, n as int).1,
            idx@.map_values(|i: usize| i as int) == placed(ms, c, n as int),
            forall|j: int| 0 <= j < idx@.len() ==> #[trigger] idx@[j] < n,
        decreases ms.len() - n,
    {
        let m = &profile.monitors[n];
        let t = &metrics[n];
        assert(ms[n as int] == m@);
        assert(mts[n as int] == t@);
        assert(i32::MIN <= resolve_row(ms, mts, c, n + 1).1 <= i32::MAX);
        let ghost prev = l@;
        let ghost px = x as int;
        match find_output(m.output.as_str(), connected) {
            None => {
                l.unmatched.push(m.output.clone());
                assert(l@.unmatched =~= prev.unmatched.push(m@.output));
                assert(l@.outputs =~= prev.outputs);
                assert(l@.warnings =~= prev.warnings);
            },
            Some(k) => {
                assert(c[k as int] == connected[k as int]@);
                let position = match m.position {
                    Some(p) => p,
                    None => (x, 0),
                };
                if m.enabled && m.position.is_none() {
                    match (&m.mode, &t.snapped) {
                        (Some(_), Some(s)) => {
                            let step = if m.transform % 2 == 1 {
                                s.height
                            } else {
                                s.width
                            };
                            x = x + step;
                        },
                        _ => {
                            let mut w = m.output.clone();
                            crate::text::push_str(
                                &mut w,
                                ": no mode and no explicit position; later monitors may overlap",
                            );
                            l.warnings.push(w);
                        },
                    }
                }
                let out = ResolvedOutput {
                    name: connected[k].name.clone(),
                    selector: m.output.clone(),
                    mode: copy_mode(&m.mode),
                    position,
                    scale: scale_for(m, t),
                    transform: m.transform,
                    enabled: m.enabled,
                };
                assert(out@.position == match m@.position {
                    Some(p) => p,
                    None => (px as i32, 0i32),
                });
                assert(out@.name == c[k as int].name);
                l.outputs.push(out);
                let ghost pi = idx@;
                idx.push(n);
                assert(idx@.map_values(|i: usize| i as int) =~= pi.map_values(|i: usize| i as int).push(
                    n as int,
                ));
                assert(l@.outputs =~= prev.outputs.push(out@));
                assert(l@.unmatched =~= prev.unmatched);
                assert(l@.warnings =~= if overlaps(m@) {
                    prev.warnings.push(overlap_warning(m@.output))
                } else {
                    prev.warnings
                });
                assert(x as int == px + advance(m@, t@));
                assert(find_selected(ms[n as int].output, c, 0) == Some(k as int));
                assert(resolve_row(ms, mts, c, n + 1).0.outputs == prev.outputs.push(out@));
            },
        }
        n += 1;
        assert(l@ =~= resolve_row(ms, mts, c, n as int).0);
    }
    (l, idx)
}

/// Places the monitors of `profile` on the `connected` outputs, left to
/// right: a monitor goes on the first output its selector picks (or is
/// reported unmatched); an explicit position is kept, otherwise it sits at
/// the row's current `x`, which then advances by its logical width.
pub fn resolve(profile: &Profile, connected: &[ConnectedOutput], metrics: &[Metrics]) -> (l:
    ResolvedLayout)
    requires
        metrics_fit(profile@.monitors, metrics_view(metrics@)),
        row_in_range(profile@.monitors, metrics_view(metrics@), connected_view(connected@)),
    ensures
        l@ == resolve_spec(profile@.monitors, metrics_view(metrics@), connected_view(connected@)),
{
    resolve_placed(profile, connected, metrics).0
}

/// The stand-in output `resolve_all` offers for a selector: named after it,
/// described by it without its `desc:` prefix.
pub open spec fn stand_in(selector: Seq<char>) -> ConnectedView {
    ConnectedView {
        name: selector,
        description: match strip_prefix(selector, "desc:"@) {
            Some(d) => d,
            None => selector,
        },
    }
}

pub open spec fn stand_ins(ms: Seq<MonitorView>) -> Seq<ConnectedView> {
    ms.map_values(|m: MonitorView| stand_in(m.output))
}

/// `resolve` with every selector of the profile treated as connected.
pub fn resolve_all(profile: &Profile, metrics: &[Metrics]) -> (l: ResolvedLayout)
    requires
        metrics_fit(profile@.monitors, metrics_view(metrics@)),
        row_in_range(profile@.monitors, metrics_view(metrics@), stand_ins(profile@.monitors)),
    ensures
        l@ == resolve_spec(profile@.monitors, metrics_view(metrics@), stand_ins(profile@.monitors)),
{
    let c = stand_in_outputs(profile);
    resolve(profile, &c, metrics)
}

/// The stand-in outputs of `profile`'s monitors.
pub fn stand_in_outputs(profile: &Profile) -> (c: Vec<ConnectedOutput>)
    ensures
        connected_view(c@) == stand_ins(profile@.monitors),
{
    let ghost ms = profile@.monitors;
    let mut c: Vec<ConnectedOutput> = Vec::new();
    let mut i: usize = 0;
    proof {
        reveal_strlit("desc:");
    }
    while i < profile.monitors.len()
        invariant
            i <= ms.len(),
            ms == profile@.monitors,
            c@.len() == i,
            connected_view(c@) == stand_ins(ms).take(i as int),
        decreases ms.len() - i,
    {
        proof {
            reveal_strlit("desc:");
        }
        let out = &profile.monitors[i].output;
        assert(ms[i as int].output == out@);
        let v = chars_of(out.as_str());
        let n = v.len();
        assert(v@.subrange(0, n as int) =~= out@);
        let description = if starts_with_at(&v, 0, n, "desc:") {
            assert(out@.skip(5) =~= v@.subrange(5, n as int));
            string_of(&v, 5, n)
        } else {
            out.clone()
        };
        let ghost before = c@;
        let o = ConnectedOutput { name: out.clone(), description };
        assert(o@ == stand_in(out@));
        c.push(o);
        assert(c@ == before.push(o));
        assert forall|j: int| 0 <= j <= i implies #[trigger] connected_view(c@)[j] == stand_ins(
            ms,
        )[j] by {
            if j < i {
                assert(connected_view(before)[j] == stand_ins(ms).take(i as int)[j]);
            }
        }
        i += 1;
        assert(connected_view(c@) =~= stand_ins(ms).take(i as int));
    }
    assert(stand_ins(ms).take(ms.len() as int) =~= stand_ins(ms));
    c
}


/// Every monitor is accounted for: it is either placed or reported unmatched.
pub proof fn resolve_accounts_for_every_monitor(
    ms: Seq<MonitorView>,
    mts: Seq<MetricsView>,
    c: Seq<ConnectedView>,
    n: int,
)
    requires
        0 <= n <= ms.len(),
    ensures
        resolve_row(ms, mts, c, n).0.outputs.len() + resolve_row(ms, mts, c, n).0.unmatched.len()
            == n,
    decreases n,
{
    if n > 0 {
        resolve_accounts_for_every_monitor(ms, mts, c, n - 1);
    }
}

/// A monitor no connected output answers adds its selector to `unmatched`
/// and changes nothing else.
pub proof fn unmatched_selector_is_reported(
    ms: Seq<MonitorView>,
    mts: Seq<MetricsView>,
    c: Seq<ConnectedView>,
    n: int,
)
    requires
        0 <= n < ms.len(),
        find_selected(ms[n].output, c, 0) is None,
    ensures
        resolve_row(ms, mts, c, n + 1).0.unmatched == resolve_row(ms, mts, c, n).0.unmatched.push(
            ms[n].output,
        ),
        resolve_row(ms, mts, c, n + 1).0.outputs == resolve_row(ms, mts, c, n).0.outputs,
        resolve_row(ms, mts, c, n + 1).1 == resolve_row(ms, mts, c, n).1,
{
}

/// A placed monitor with an explicit position keeps it, and the row does
/// not advance past it.
pub proof fn explicit_position_wins(
    ms: Seq<MonitorView>,
    mts: Seq<MetricsView>,
    c: Seq<ConnectedView>,
    n: int,
)
    requires
        0 <= n < ms.len(),
        find_selected(ms[n].output, c, 0) is Some,
        ms[n].position is Some,
    ensures
        resolve_row(ms, mts, c, n + 1).0.outputs.last().position == ms[n].position.unwrap(),
        resolve_row(ms, mts, c, n + 1).1 == resolve_row(ms, mts, c, n).1,
{
}

/// A disabled monitor does not advance the row.
pub proof fn disabled_monitor_does_not_advance(
    ms: Seq<MonitorView>,
    mts: Seq<MetricsView>,
    c: Seq<ConnectedView>,
    n: int,
)
    requires
        0 <= n < ms.len(),
        !ms[n].enabled,
    ensures
        resolve_row(ms, mts, c, n + 1).1 == resolve_row(ms, mts, c, n).1,
{
}

/// A placed, enabled monitor with a mode and no explicit position sits at
/// the row's `x`, and the row advances by its logical width, or by its
/// logical height when an odd transform turns it to portrait.
pub proof fn row_advances_by_logical_width(
    ms: Seq<MonitorView>,
    mts: Seq<MetricsView>,
    c: Seq<ConnectedView>,
    n: int,
)
    requires
        0 <= n < ms.len(),
        n < mts.len(),
        find_selected(ms[n].output, c, 0) is Some,
        ms[n].enabled,
        ms[n].position is None,
        mts[n].snapped is Some,
        ms[n].mode is Some,
        i32::MIN <= resolve_row(ms, mts, c, n).1 <= i32::MAX,
    ensures
        resolve_row(ms, mts, c, n + 1).0.outputs.last().position == (
            resolve_row(ms, mts, c, n).1 as i32,
            0i32,
        ),
        resolve_row(ms, mts, c, n).1 as i32 == resolve_row(ms, mts, c, n).1,
        resolve_row(ms, mts, c, n + 1).1 == resolve_row(ms, mts, c, n).1 + if ms[n].transform % 2
            == 1 {
            mts[n].snapped.unwrap().height as int
        } else {
            mts[n].snapped.unwrap().width as int
        },
{
}

proof fn lemma_find_selected_some(selector: Seq<char>, c: Seq<ConnectedView>, i: int, k: int)
    requires
        0 <= i <= k < c.len(),
        selects_spec(selector, c[k]),
    ensures
        find_selected(selector, c, i) is Some,
    decreases k - i,
{
    if !selects_spec(selector, c[i]) {
        lemma_find_selected_some(selector, c, i + 1, k);
    }
}

/// A selector its own stand-in answers: any selector but a `desc:` one
/// whose trimmed description is not a prefix of the description (one that
/// starts with whitespace and has more than whitespace).
pub open spec fn self_selecting(selector: Seq<char>) -> bool {
    strip_prefix(selector, "desc:"@) matches Some(d) ==> trim(d).is_prefix_of(d)
}

/// `resolve_all` places every monitor and reports none unmatched, when every
/// selector answers its own stand-in.
pub proof fn resolve_all_places_every_monitor(ms: Seq<MonitorView>, mts: Seq<MetricsView>)
    requires
        forall|i: int| 0 <= i < ms.len() ==> self_selecting(#[trigger] ms[i].output),
    ensures
        resolve_spec(ms, mts, stand_ins(ms)).outputs.len() == ms.len(),
        resolve_spec(ms, mts, stand_ins(ms)).unmatched.len() == 0,
{
    let c = stand_ins(ms);
    assert forall|n: int| 0 <= n < ms.len() implies #[trigger] find_selected(ms[n].output, c, 0)
        is Some by {
        let sel = ms[n].output;
        assert(self_selecting(sel));
        assert(selects_spec(sel, c[n]));
        lemma_find_selected_some(sel, c, 0, n);
    }
    lemma_no_unmatched(ms, mts, c, ms.len() as int);
    resolve_accounts_for_every_monitor(ms, mts, c, ms.len() as int);
}

proof fn lemma_no_unmatched(ms: Seq<MonitorView>, mts: Seq<MetricsView>, c: Seq<ConnectedView>, n: int)
    requires
        0 <= n <= ms.len(),
        forall|j: int| 0 <= j < n ==> #[trigger] find_selected(ms[j].output, c, 0) is Some,
    ensures
        resolve_row(ms, mts, c, n).0.unmatched.len() == 0,
    decreases n,
{
    if n > 0 {
        lemma_no_unmatched(ms, mts, c, n - 1);
        assert(find_selected(ms[n - 1].output, c, 0) is Some);
    }
}

/// The placed indices name earlier monitors, one per output.
pub proof fn lemma_placed(ms: Seq<MonitorView>, mts: Seq<MetricsView>, c: Seq<ConnectedView>, n: int)
    requires
        0 <= n <= ms.len(),
    ensures
        placed(ms, c, n).len() == resolve_row(ms, mts, c, n).0.outputs.len(),
        forall|k: int|
            0 <= k < placed(ms, c, n).len() ==> 0 <= #[trigger] placed(ms, c, n)[k] < n,
    decreases n,
{
    if n > 0 {
        lemma_placed(ms, mts, c, n - 1);
    }
}

/// The output a placed monitor becomes when the row stands at `x`: named
/// after the first connected output its selector picks, carrying the
/// monitor's selector, mode, transform and enabled flag, its resolved scale,
/// and its explicit position or `(x, 0)`.
pub open spec fn placed_output(
    m: MonitorView,
    mt: MetricsView,
    c: Seq<ConnectedView>,
    x: int,
) -> ResolvedOutputView {
    ResolvedOutputView {
        name: c[find_selected(m.output, c, 0).unwrap()].name,
        selector: m.output,
        mode: m.mode,
        position: match m.position {
            Some(p) => p,
            None => (x as i32, 0i32),
        },
        scale: resolved_scale(m, mt),
        transform: m.transform,
        enabled: m.enabled,
    }
}

/// The selectors of the first `n` monitors that no connected output picks.
pub open spec fn unplaced(ms: Seq<MonitorView>, c: Seq<ConnectedView>, n: int) -> Seq<Seq<char>>
    decreases n,
{
    if n <= 0 {
        Seq::empty()
    } else if find_selected(ms[n - 1].output, c, 0) is Some {
        unplaced(ms, c, n - 1)
    } else {
        unplaced(ms, c, n - 1).push(ms[n - 1].output)
    }
}

/// `resolve` splits the monitors, in order, into outputs and unmatched
/// selectors: each monitor some connected output picks becomes one output,
/// in monitor order, named after the first output that picks it and placed
/// at the row's `x` when the row reached it; every other monitor's selector
/// is reported unmatched, in order.
pub proof fn resolve_partitions_monitors(
    ms: Seq<MonitorView>,
    mts: Seq<MetricsView>,
    c: Seq<ConnectedView>,
    n: int,
)
    requires
        0 <= n <= ms.len(),
    ensures
        resolve_row(ms, mts, c, n).0.unmatched == unplaced(ms, c, n),
        placed(ms, c, n).len() == resolve_row(ms, mts, c, n).0.outputs.len(),
        forall|k: int|
            #![trigger placed(ms, c, n)[k]]
            0 <= k < placed(ms, c, n).len() ==> {
                let i = placed(ms, c, n)[k];
                &&& 0 <= i < n
                &&& find_selected(ms[i].output, c, 0) is Some
                &&& resolve_row(ms, mts, c, n).0.outputs[k] == placed_output(
                    ms[i],
                    mts[i],
                    c,
                    resolve_row(ms, mts, c, i).1,
                )
            },
        forall|a: int, b: int|
            0 <= a < b < placed(ms, c, n).len() ==> #[trigger] placed(ms, c, n)[a] < #[trigger] placed(
                ms,
                c,
                n,
            )[b],
        forall|i: int|
            0 <= i < n && #[trigger] find_selected(ms[i].output, c, 0) is Some ==> exists|k: int|
                0 <= k < placed(ms, c, n).len() && placed(ms, c, n)[k] == i,
    decreases n,
{
    if n > 0 {
        resolve_partitions_monitors(ms, mts, c, n - 1);
        let ps0 = placed(ms, c, n - 1);
        let ps = placed(ms, c, n);
        if find_selected(ms[n - 1].output, c, 0) is Some {
            assert(ps == ps0.push(n - 1));
            assert forall|k: int| #![trigger ps[k]] 0 <= k < ps.len() implies {
                let i = ps[k];
                &&& 0 <= i < n
                &&& find_selected(ms[i].output, c, 0) is Some
                &&& resolve_row(ms, mts, c, n).0.outputs[k] == placed_output(
                    ms[i],
                    mts[i],
                    c,
                    resolve_row(ms, mts, c, i).1,
                )
            } by {
                if k < ps0.len() {
                    assert(ps[k] == ps0[k]);
                }
            }
            assert forall|i: int|
                0 <= i < n && #[trigger] find_selected(ms[i].output, c, 0) is Some implies exists|k: int|
                0 <= k < ps.len() && ps[k] == i by {
                if i < n - 1 {
                    let k = choose|k: int| 0 <= k < ps0.len() && ps0[k] == i;
                    assert(ps[k] == ps0[k]);
                } else {
                    assert(ps[ps0.len() as int] == i);
                }
            }
        } else {
            assert(ps == ps0);
        }
    }
}

/// What each placed output keeps of its monitor: the selector, mode,
/// transform and enabled flag as given, an explicit position as given, and
/// the scale snapped to the monitor's mode (from its metrics) whenever the
/// monitor has a mode, whatever its position; the target scale is kept only
/// for a monitor without a mode.
pub proof fn placed_outputs_keep_their_monitor(
    ms: Seq<MonitorView>,
    mts: Seq<MetricsView>,
    c: Seq<ConnectedView>,
)
    requires
        metrics_fit(ms, mts),
    ensures
        forall|k: int|
            #![trigger placed(ms, c, ms.len() as int)[k]]
            0 <= k < placed(ms, c, ms.len() as int).len() ==> {
                let i = placed(ms, c, ms.len() as int)[k];
                let o = resolve_spec(ms, mts, c).outputs[k];
                &&& 0 <= i < ms.len()
                &&& o.selector == ms[i].output
                &&& o.mode == ms[i].mode
                &&& o.transform == ms[i].transform
                &&& o.enabled == ms[i].enabled
                &&& (ms[i].position matches Some(q) ==> o.position == q)
                &&& (ms[i].mode is Some ==> (mts[i].snapped matches Some(sn) && o.scale == sn.scale))
                &&& (ms[i].mode is None ==> o.scale == ms[i].scale)
            },
{
    let n = ms.len() as int;
    resolve_partitions_monitors(ms, mts, c, n);
    assert forall|k: int|
        #![trigger placed(ms, c, n)[k]]
        0 <= k < placed(ms, c, n).len() implies {
            let i = placed(ms, c, n)[k];
            let o = resolve_spec(ms, mts, c).outputs[k];
            &&& 0 <= i < ms.len()
            &&& o.selector == ms[i].output
            &&& o.mode == ms[i].mode
            &&& o.transform == ms[i].transform
            &&& o.enabled == ms[i].enabled
            &&& (ms[i].position matches Some(q) ==> o.position == q)
            &&& (ms[i].mode is Some ==> (mts[i].snapped matches Some(sn) && o.scale == sn.scale))
            &&& (ms[i].mode is None ==> o.scale == ms[i].scale)
        } by {
        let i = placed(ms, c, n)[k];
        assert(ms[i].mode is Some == mts[i].snapped is Some);
    }
}

} // verus!

//! The worklist.
use vstd::prelude::*;

use super::band::Band;
use super::config::{Dimension, PressureConfig};
use super::evaluate::Numbers;
use super::level::{Level, Verdict};
use super::verdict::{Action, DimensionReading, Finding, FindingView, ReadingView};
use super::who::{attribute, line_of, suspects_of, who_line, worded, Consumer, ConsumerView};
use super::wording::{message_for, message_text, three, Words};
use crate::census::{stale_in, Census};
use crate::number::Real;
use crate::sorting::{
    in_order, law_sorting, lemma_sorted_len, lemma_sorted_members, order, sort, sorted_by, weak_order, Ranked,
};
use crate::text::{owned, views};

verus! {

broadcast use crate::text::lemma_views_push;

/// What to do about a dimension. A saturated CPU leads to reaping only where
/// there is something to reap.
pub open spec fn lever(d: Dimension, band: Band, stale_sessions: nat) -> Action {
    match d {
        Dimension::Agents => Action::ReapStaleSessions,
        Dimension::Orphans => Action::ReapOrphans,
        Dimension::Memory
        | Dimension::Swap
        | Dimension::KernelPressure
        | Dimension::Jetsam
        | Dimension::KernelFree
        | Dimension::Compressor
        | Dimension::Thrash => Action::RelaunchApps,
        Dimension::Uptime => Action::Reboot,
        Dimension::Disk => Action::OpenDiskTool,
        Dimension::Corporate => Action::Nothing,
        Dimension::Thermal => Action::Nothing,
        Dimension::Cpu => if band == Band::Red && stale_sessions > 0 {
            Action::ReapStaleSessions
        } else {
            Action::Nothing
        },
    }
}

pub fn action_for(d: Dimension, band: Band, stale_sessions: usize) -> (r: Action)
    ensures
        r == lever(d, band, stale_sessions as nat),
{
    match d {
        Dimension::Agents => Action::ReapStaleSessions,
        Dimension::Orphans => Action::ReapOrphans,
        // Memory's cheapest lever is the biggest app group.
        Dimension::Memory
        | Dimension::Swap
        | Dimension::KernelPressure
        | Dimension::Jetsam
        | Dimension::KernelFree
        | Dimension::Compressor
        | Dimension::Thrash => Action::RelaunchApps,
        Dimension::Uptime => Action::Reboot,
        Dimension::Disk => Action::OpenDiskTool,
        // Centrally managed: the user cannot remove them.
        Dimension::Corporate => Action::Nothing,
        // The lever is physical.
        Dimension::Thermal => Action::Nothing,
        Dimension::Cpu => {
            if band == Band::Red && stale_sessions > 0 {
                Action::ReapStaleSessions
            } else {
                Action::Nothing
            }
        },
    }
}

/// A finding with how far past its line the reading behind it is.
#[derive(Clone, Debug)]
pub struct Entry {
    pub severity: Real,
    pub finding: Finding,
}

#[verifier::ext_equal]
pub struct EntryView {
    pub severity: Real,
    pub finding: FindingView,
}

impl View for Entry {
    type V = EntryView;

    open spec fn view(&self) -> EntryView {
        EntryView { severity: self.severity, finding: self.finding@ }
    }
}

/// Whether one severity is further past the line than another. What is not a
/// number is past nothing.
pub open spec fn further(a: Real, b: Real) -> bool {
    !a.nan() && (b.nan() || b.below(a))
}

fn is_further(a: Real, b: Real) -> (r: bool)
    ensures
        r == further(a, b),
{
    !a.is_nan() && (b.is_nan() || b.is_below(a))
}

impl Ranked for Entry {
    /// By the action's impact, then worst band first, then furthest past the
    /// line, then as declared.
    open spec fn goes_first(a: EntryView, b: EntryView) -> bool {
        let (f, g) = (a.finding, b.finding);
        if f.action.place() != g.action.place() {
            f.action.place() < g.action.place()
        } else if f.band != g.band {
            f.band.height() > g.band.height()
        } else if further(a.severity, b.severity) || further(b.severity, a.severity) {
            further(a.severity, b.severity)
        } else {
            f.dimension.place() < g.dimension.place()
        }
    }

    fn is_first(&self, other: &Entry) -> (r: bool) {
        let (f, g) = (&self.finding, &other.finding);
        if f.action.rank() != g.action.rank() {
            f.action.rank() < g.action.rank()
        } else if f.band != g.band {
            f.band.rank() > g.band.rank()
        } else if is_further(self.severity, other.severity) {
            true
        } else if is_further(other.severity, self.severity) {
            false
        } else {
            f.dimension.index() < g.dimension.index()
        }
    }
}

/// Whether swap is out of band.
pub open spec fn swap_elevated(readings: Seq<ReadingView>) -> bool {
    exists|i: int|
        0 <= i < readings.len() && (#[trigger] readings[i]).dimension == Dimension::Swap
            && readings[i].band != Band::Green
}

pub open spec fn swap_red(readings: Seq<ReadingView>) -> bool {
    exists|i: int|
        0 <= i < readings.len() && (#[trigger] readings[i]).dimension == Dimension::Swap
            && readings[i].band == Band::Red
}

/// What makes a finding: anything out of band that is not advisory, and a long
/// uptime beside elevated swap.
pub open spec fn admitted(r: ReadingView, readings: Seq<ReadingView>) -> bool {
    &&& r.band != Band::Green
    &&& !r.advisory || (r.dimension == Dimension::Uptime && swap_elevated(readings))
}

/// The digits of a dimension, or none.
pub open spec fn words_of(n: Numbers, d: Dimension) -> Words {
    n.figures@[d.place()].words
}

/// Whoever is behind a dimension, by the newest census.
pub open spec fn behind(
    d: Dimension,
    census: Option<Census>,
    n: Numbers,
    config: PressureConfig,
) -> Seq<ConsumerView> {
    match census {
        Some(c) => worded(
            suspects_of(d, c, n.rates@, config),
            n.figures@[d.place()].measures@,
        ),
        None => Seq::empty(),
    }
}

pub open spec fn stale_of(census: Option<Census>) -> nat {
    match census {
        Some(c) => stale_in(c.agent_sessions@),
        None => 0,
    }
}

pub open spec fn finding_of(
    r: ReadingView,
    census: Option<Census>,
    swap_total: Option<u64>,
    n: Numbers,
    config: PressureConfig,
) -> FindingView {
    let action = lever(r.dimension, r.band, stale_of(census));
    let who = behind(r.dimension, census, n, config);
    FindingView {
        dimension: r.dimension,
        band: r.band,
        message: message_text(r, swap_total, words_of(n, r.dimension)),
        action,
        action_label: action.label_text(),
        who,
        who_line: line_of(who),
    }
}

pub open spec fn entry_of(
    r: ReadingView,
    census: Option<Census>,
    swap_total: Option<u64>,
    n: Numbers,
    config: PressureConfig,
) -> EntryView {
    EntryView {
        severity: r.severity,
        finding: finding_of(r, census, swap_total, n, config),
    }
}

/// An entry for each reading, among the first of them, that makes a finding.
pub open spec fn raw_entries(
    some: Seq<ReadingView>,
    readings: Seq<ReadingView>,
    census: Option<Census>,
    swap_total: Option<u64>,
    n: Numbers,
    config: PressureConfig,
) -> Seq<EntryView>
    decreases some.len(),
{
    if some.len() == 0 {
        Seq::empty()
    } else {
        let front = raw_entries(some.drop_last(), readings, census, swap_total, n, config);
        if admitted(some.last(), readings) {
            front.push(entry_of(some.last(), census, swap_total, n, config))
        } else {
            front
        }
    }
}

pub open spec fn offers_reboot(s: Seq<FindingView>) -> bool {
    exists|i: int| 0 <= i < s.len() && (#[trigger] s[i]).action == Action::Reboot
}

pub open spec fn compressor_seen(readings: Seq<ReadingView>) -> bool {
    exists|i: int|
        0 <= i < readings.len() && (#[trigger] readings[i]).dimension == Dimension::Compressor
}

/// The last resort, with the measured occupancy where there is one.
pub open spec fn reboot_finding(readings: Seq<ReadingView>, n: Numbers) -> FindingView {
    FindingView {
        dimension: Dimension::Compressor,
        band: Band::Red,
        message: if compressor_seen(readings) {
            "Swap has stayed pinned and "@ + words_of(n, Dimension::Compressor).amount@
                + " is held compressed. Only a reboot truly resets a saturated compressor pool."@
        } else {
            "Swap has stayed pinned. Only a reboot truly resets a saturated compressor pool."@
        },
        action: Action::Reboot,
        action_label: Action::Reboot.label_text(),
        who: Seq::empty(),
        who_line: None,
    }
}

/// The entries in order.
pub open spec fn ranked_entries(
    readings: Seq<ReadingView>,
    census: Option<Census>,
    swap_total: Option<u64>,
    n: Numbers,
    config: PressureConfig,
) -> Seq<EntryView> {
    sorted_by(
        raw_entries(readings, readings, census, swap_total, n, config),
        order::<Entry>(),
    )
}

/// What the entries tell.
pub open spec fn told(s: Seq<EntryView>) -> Seq<FindingView> {
    s.map_values(|e: EntryView| e.finding)
}

/// The findings in order.
pub open spec fn ranked_findings(
    readings: Seq<ReadingView>,
    census: Option<Census>,
    swap_total: Option<u64>,
    n: Numbers,
    config: PressureConfig,
) -> Seq<FindingView> {
    told(ranked_entries(readings, census, swap_total, n, config))
}

/// The worklist: the findings in order, and at the top level with swap red a
/// reboot at the end.
pub open spec fn worklist(
    readings: Seq<ReadingView>,
    level: Level,
    census: Option<Census>,
    swap_total: Option<u64>,
    n: Numbers,
    config: PressureConfig,
) -> Seq<FindingView> {
    let ranked = ranked_findings(readings, census, swap_total, n, config);
    if level == Level::Shrieking && swap_red(readings) && !offers_reboot(ranked) {
        ranked.push(reboot_finding(readings, n))
    } else {
        ranked
    }
}

/// Whether some reading of a dimension is in one of the bands.
fn any_reading(readings: &Vec<DimensionReading>, d: Dimension, least: Band) -> (r: bool)
    ensures
        r == exists|i: int|
            0 <= i < readings.len() && (#[trigger] views(readings@)[i]).dimension == d && views(
                readings@,
            )[i].band.height() >= least.height(),
{
    let ghost all = views(readings@);
    let mut i: usize = 0;
    while i < readings.len()
        invariant
            i <= readings.len(),
            all == views(readings@),
            forall|j: int|
                0 <= j < i ==> !((#[trigger] all[j]).dimension == d && all[j].band.height()
                    >= least.height()),
        decreases readings.len() - i,
    {
        let r = &readings[i];
        assert(all[i as int] == r@);
        if r.dimension == d && r.band.is_at_least(least) {
            return true;
        }
        i = i + 1;
    }
    false
}

fn finding_for_reading(
    r: &DimensionReading,
    census: Option<&Census>,
    stale_sessions: usize,
    swap_total: Option<u64>,
    n: &Numbers,
    config: &PressureConfig,
) -> (f: Finding)
    requires
        stale_sessions == stale_of(owned(census)),
    ensures
        f@ == finding_of(r@, owned(census), swap_total, *n, *config),
{
    let action = action_for(r.dimension, r.band, stale_sessions);
    let figures = &n.figures[r.dimension.index()];
    let who: Vec<Consumer> = match census {
        Some(c) => attribute(r.dimension, c, &n.rates, &figures.measures, config),
        None => Vec::new(),
    };
    let line = who_line(who.as_slice());
    let f = Finding {
        dimension: r.dimension,
        band: r.band,
        message: message_for(r, swap_total, &figures.words),
        action,
        action_label: action.label().to_owned(),
        who,
        who_line: line,
    };
    assert(f@ =~= finding_of(r@, owned(census), swap_total, *n, *config)) by {
        assert(views(f.who@) =~= behind(r.dimension, owned(census), *n, *config));
    }
    f
}

/// The findings of some entries.
fn findings_of(entries: Vec<Entry>) -> (r: Vec<Finding>)
    ensures
        views(r@) == told(views(entries@)),
{
    let ghost all = views(entries@);
    let mut left = entries;
    let mut out: Vec<Finding> = Vec::new();
    while left.len() > 0
        invariant
            out.len() + left.len() == all.len(),
            forall|i: int| 0 <= i < left.len() ==> (#[trigger] left@[i])@ == all[out.len() + i],
            views(out@) == told(all).take(out.len() as int),
        decreases left.len(),
    {
        let ghost before = left@;
        let e = left.remove(0);
        assert(before[0]@ == all[out.len() as int]);
        assert forall|i: int| 0 <= i < left.len() implies (#[trigger] left@[i])@ == all[out.len()
            + 1 + i] by {
            assert(left@[i] == before[i + 1]);
        }
        out.push(e.finding);
        assert(views(out@) =~= told(all).take(out.len() as int));
    }
    assert(told(all).take(all.len() as int) =~= told(all));
    out
}

/// Build the worklist from the readings and the newest census.
///
/// Every finding names its consumers. With no census nothing is claimed to be
/// there to reap.
pub fn build_findings(
    readings: &Vec<DimensionReading>,
    verdict: &Verdict,
    census: Option<&Census>,
    swap_total: Option<u64>,
    n: &Numbers,
    config: &PressureConfig,
) -> (r: Vec<Finding>)
    ensures
        views(r@) == worklist(views(readings@), verdict.level, owned(census), swap_total, *n, *config),
{
    let ghost all = views(readings@);
    let stale: usize = match census {
        Some(c) => c.stale_sessions(),
        None => 0,
    };
    let elevated = any_reading(readings, Dimension::Swap, Band::Yellow);
    let pinned = any_reading(readings, Dimension::Swap, Band::Red);
    let seen = any_reading(readings, Dimension::Compressor, Band::Green);
    proof {
        assert(elevated == swap_elevated(all)) by {
            if elevated {
                let i = choose|i: int|
                    0 <= i < readings.len() && (#[trigger] all[i]).dimension == Dimension::Swap
                        && all[i].band.height() >= Band::Yellow.height();
                assert(all[i].band != Band::Green);
            }
            if swap_elevated(all) {
                let i = choose|i: int|
                    0 <= i < all.len() && (#[trigger] all[i]).dimension == Dimension::Swap
                        && all[i].band != Band::Green;
                assert(all[i].band.height() >= Band::Yellow.height());
            }
        }
        assert(pinned == swap_red(all)) by {
            if pinned {
                let i = choose|i: int|
                    0 <= i < readings.len() && (#[trigger] all[i]).dimension == Dimension::Swap
                        && all[i].band.height() >= Band::Red.height();
                assert(all[i].band == Band::Red);
            }
            if swap_red(all) {
                let i = choose|i: int|
                    0 <= i < all.len() && (#[trigger] all[i]).dimension == Dimension::Swap
                        && all[i].band == Band::Red;
                assert(all[i].band.height() >= Band::Red.height());
            }
        }
        assert(seen == compressor_seen(all)) by {
            if seen {
                let i = choose|i: int|
                    0 <= i < readings.len() && (#[trigger] all[i]).dimension
                        == Dimension::Compressor && all[i].band.height() >= Band::Green.height();
                assert(all[i].dimension == Dimension::Compressor);
            }
            if compressor_seen(all) {
                let i = choose|i: int|
                    0 <= i < all.len() && (#[trigger] all[i]).dimension == Dimension::Compressor;
                assert(all[i].band.height() >= Band::Green.height());
            }
        }
    }
    let mut raw: Vec<Entry> = Vec::new();
    let mut i: usize = 0;
    assert(views(raw@) =~= Seq::empty());
    while i < readings.len()
        invariant
            i <= readings.len(),
            all == views(readings@),
            stale == stale_of(owned(census)),
            elevated == swap_elevated(all),
            views(raw@) == raw_entries(
                all.take(i as int),
                all,
                owned(census),
                swap_total,
                *n,
                *config,
            ),
        decreases readings.len() - i,
    {
        assert(all.take(i + 1).drop_last() =~= all.take(i as int));
        let r = &readings[i];
        assert(all.take(i + 1).last() == r@);
        if r.band != Band::Green && (!r.advisory || (r.dimension == Dimension::Uptime
            && elevated)) {
            raw.push(
                Entry {
                    severity: r.severity,
                    finding: finding_for_reading(r, census, stale, swap_total, n, config),
                },
            );
        }
        i = i + 1;
    }
    assert(all.take(i as int) =~= all);
    let mut out = findings_of(sort(raw));
    if verdict.level == Level::Shrieking && pinned && !has_reboot(&out) {
        let message = if seen {
            three(
                "Swap has stayed pinned and ",
                n.figures[Dimension::Compressor.index()].words.amount.as_str(),
                " is held compressed. Only a reboot truly resets a saturated compressor pool.",
            )
        } else {
            "Swap has stayed pinned. Only a reboot truly resets a saturated compressor pool.".to_owned()
        };
        let last = Finding {
            dimension: Dimension::Compressor,
            band: Band::Red,
            message,
            action: Action::Reboot,
            action_label: Action::Reboot.label().to_owned(),
            who: Vec::new(),
            who_line: None,
        };
        assert(last@ =~= reboot_finding(all, *n));
        out.push(last);
    }
    out
}

fn has_reboot(s: &Vec<Finding>) -> (r: bool)
    ensures
        r == offers_reboot(views(s@)),
{
    let ghost all = views(s@);
    let mut i: usize = 0;
    while i < s.len()
        invariant
            i <= s.len(),
            all == views(s@),
            forall|j: int| 0 <= j < i ==> (#[trigger] all[j]).action != Action::Reboot,
        decreases s.len() - i,
    {
        assert(all[i as int] == s[i as int]@);
        if s[i].action == Action::Reboot {
            return true;
        }
        i = i + 1;
    }
    false
}

proof fn lemma_raw_entries(
    some: Seq<ReadingView>,
    readings: Seq<ReadingView>,
    census: Option<Census>,
    swap_total: Option<u64>,
    n: Numbers,
    config: PressureConfig,
)
    ensures
        forall|i: int|
            0 <= i < some.len() && admitted(#[trigger] some[i], readings) ==> raw_entries(
                some,
                readings,
                census,
                swap_total,
                n,
                config,
            ).contains(entry_of(some[i], census, swap_total, n, config)),
        forall|k: int|
            0 <= k < raw_entries(some, readings, census, swap_total, n, config).len()
                ==> stands_for_some(
                #[trigger] raw_entries(some, readings, census, swap_total, n, config)[k],
                some,
                readings,
                census,
                swap_total,
                n,
                config,
            ),
    decreases some.len(),
{
    let all = raw_entries(some, readings, census, swap_total, n, config);
    if some.len() > 0 {
        let less = some.drop_last();
        let front = raw_entries(less, readings, census, swap_total, n, config);
        lemma_raw_entries(less, readings, census, swap_total, n, config);
        assert forall|i: int|
            0 <= i < some.len() && admitted(#[trigger] some[i], readings) implies all.contains(
            entry_of(some[i], census, swap_total, n, config),
        ) by {
            let f = entry_of(some[i], census, swap_total, n, config);
            if i == some.len() - 1 {
                assert(all[all.len() - 1] == f);
            } else {
                assert(less[i] == some[i]);
                assert(front.contains(f));
                let k = choose|k: int| 0 <= k < front.len() && front[k] == f;
                assert(all[k] == f);
            }
        }
        assert forall|k: int| 0 <= k < all.len() implies stands_for_some(
            #[trigger] all[k],
            some,
            readings,
            census,
            swap_total,
            n,
            config,
        ) by {
            if k < front.len() {
                assert(all[k] == front[k]);
                let i = choose|i: int|
                    0 <= i < less.len() && admitted(#[trigger] less[i], readings) && front[k]
                        == entry_of(less[i], census, swap_total, n, config);
                assert(some[i] == less[i]);
            } else {
                assert(some[some.len() - 1] == some.last());
            }
        }
    }
}

/// An entry is that of a reading that makes a finding.
pub open spec fn stands_for_some(
    e: EntryView,
    some: Seq<ReadingView>,
    readings: Seq<ReadingView>,
    census: Option<Census>,
    swap_total: Option<u64>,
    n: Numbers,
    config: PressureConfig,
) -> bool {
    exists|i: int|
        0 <= i < some.len() && admitted(#[trigger] some[i], readings) && e == entry_of(
            some[i],
            census,
            swap_total,
            n,
            config,
        )
}

/// A finding is that of a reading that makes one.
pub open spec fn tells_some(
    f: FindingView,
    some: Seq<ReadingView>,
    readings: Seq<ReadingView>,
    census: Option<Census>,
    swap_total: Option<u64>,
    n: Numbers,
    config: PressureConfig,
) -> bool {
    exists|i: int|
        0 <= i < some.len() && admitted(#[trigger] some[i], readings) && f == finding_of(
            some[i],
            census,
            swap_total,
            n,
            config,
        )
}

proof fn lemma_entries_are_ranked()
    ensures
        weak_order(order::<Entry>(), |e: EntryView| true),
{
    let first = order::<Entry>();
    assert forall|a: EntryView, b: EntryView, c: EntryView|
        !(#[trigger] first(a, b)) && !(#[trigger] first(b, c)) implies !first(a, c) by {}
}

/// The findings are in the order of what their actions bring: first by action,
/// the worst band first within one, within that the one furthest past its line,
/// and as declared where none is further. Each is told with the severity of the
/// reading it is of.
pub proof fn law_findings_are_in_order(
    readings: Seq<ReadingView>,
    census: Option<Census>,
    swap_total: Option<u64>,
    n: Numbers,
    config: PressureConfig,
)
    ensures
        ({
            let entries = ranked_entries(readings, census, swap_total, n, config);
            &&& ranked_findings(readings, census, swap_total, n, config) == told(entries)
            &&& in_order(entries, order::<Entry>())
            &&& forall|k: int|
                0 <= k < entries.len() ==> stands_for_some(
                    #[trigger] entries[k],
                    readings,
                    readings,
                    census,
                    swap_total,
                    n,
                    config,
                )
            &&& forall|i: int, j: int|
                #![trigger entries[i], entries[j]]
                0 <= i < j < entries.len() && entries[i].finding.action
                    == entries[j].finding.action && entries[i].finding.band
                    == entries[j].finding.band ==> !entries[i].severity.below(entries[j].severity)
        }),
{
    let raw = raw_entries(readings, readings, census, swap_total, n, config);
    let entries = ranked_entries(readings, census, swap_total, n, config);
    lemma_raw_entries(readings, readings, census, swap_total, n, config);
    lemma_entries_are_ranked();
    law_sorting(raw, order::<Entry>(), |e: EntryView| true);
    lemma_sorted_members(raw, order::<Entry>());
    assert forall|k: int| 0 <= k < entries.len() implies stands_for_some(
        #[trigger] entries[k],
        readings,
        readings,
        census,
        swap_total,
        n,
        config,
    ) by {
        assert(raw.contains(entries[k]));
    }
    assert forall|i: int, j: int|
        #![trigger entries[i], entries[j]]
        0 <= i < j < entries.len() && entries[i].finding.action == entries[j].finding.action
            && entries[i].finding.band == entries[j].finding.band implies !entries[i].severity.below(
        entries[j].severity,
    ) by {
        assert(!order::<Entry>()(entries[j], entries[i]));
    }
}

/// Every reading that makes a finding has one in the worklist, and every entry of
/// the worklist but a closing reboot is that of such a reading.
pub proof fn law_findings_are_the_readings(
    readings: Seq<ReadingView>,
    level: Level,
    census: Option<Census>,
    swap_total: Option<u64>,
    n: Numbers,
    config: PressureConfig,
)
    ensures
        forall|i: int|
            0 <= i < readings.len() && admitted(#[trigger] readings[i], readings) ==> worklist(
                readings,
                level,
                census,
                swap_total,
                n,
                config,
            ).contains(finding_of(readings[i], census, swap_total, n, config)),
        forall|k: int|
            0 <= k < worklist(readings, level, census, swap_total, n, config).len() ==> tells_some(
                #[trigger] worklist(readings, level, census, swap_total, n, config)[k],
                readings,
                readings,
                census,
                swap_total,
                n,
                config,
            ) || closes(readings, level, census, swap_total, n, config, k),
{
    broadcast use vstd::seq_lib::group_to_multiset_ensures;

    let raw = raw_entries(readings, readings, census, swap_total, n, config);
    let entries = ranked_entries(readings, census, swap_total, n, config);
    let all = worklist(readings, level, census, swap_total, n, config);
    lemma_raw_entries(readings, readings, census, swap_total, n, config);
    lemma_entries_are_ranked();
    law_sorting(raw, order::<Entry>(), |e: EntryView| true);
    law_findings_are_in_order(readings, census, swap_total, n, config);
    assert forall|i: int|
        0 <= i < readings.len() && admitted(#[trigger] readings[i], readings) implies all.contains(
        finding_of(readings[i], census, swap_total, n, config),
    ) by {
        let e = entry_of(readings[i], census, swap_total, n, config);
        assert(raw.contains(e));
        assert(raw.to_multiset().count(e) > 0);
        assert(entries.contains(e));
        let k = choose|k: int| 0 <= k < entries.len() && entries[k] == e;
        assert(all[k] == e.finding);
    }
    assert forall|k: int| 0 <= k < all.len() implies tells_some(
        #[trigger] all[k],
        readings,
        readings,
        census,
        swap_total,
        n,
        config,
    ) || closes(readings, level, census, swap_total, n, config, k) by {
        if k < entries.len() {
            assert(all[k] == entries[k].finding);
            assert(stands_for_some(
                entries[k],
                readings,
                readings,
                census,
                swap_total,
                n,
                config,
            ));
            let i = choose|i: int|
                0 <= i < readings.len() && admitted(#[trigger] readings[i], readings) && entries[k]
                    == entry_of(readings[i], census, swap_total, n, config);
            assert(all[k] == finding_of(readings[i], census, swap_total, n, config));
        }
    }
}

/// An entry is the reboot that closes the worklist.
pub open spec fn closes(
    readings: Seq<ReadingView>,
    level: Level,
    census: Option<Census>,
    swap_total: Option<u64>,
    n: Numbers,
    config: PressureConfig,
    k: int,
) -> bool {
    let all = worklist(readings, level, census, swap_total, n, config);
    &&& k == all.len() - 1
    &&& all[k] == reboot_finding(readings, n)
    &&& level == Level::Shrieking
    &&& swap_red(readings)
}

/// An advisory dimension is a row, not a finding, but for a long uptime beside
/// elevated swap; the reboot that closes the worklist is about the machine.
pub proof fn law_advisory_dimensions_are_not_told(
    readings: Seq<ReadingView>,
    level: Level,
    census: Option<Census>,
    swap_total: Option<u64>,
    n: Numbers,
    config: PressureConfig,
    k: int,
)
    requires
        forall|i: int|
            0 <= i < readings.len() ==> (#[trigger] readings[i]).advisory
                == readings[i].dimension.advisory(),
        0 <= k < worklist(readings, level, census, swap_total, n, config).len(),
        worklist(readings, level, census, swap_total, n, config)[k].dimension.advisory(),
    ensures
        closes(readings, level, census, swap_total, n, config, k) || (worklist(
            readings,
            level,
            census,
            swap_total,
            n,
            config,
        )[k].dimension == Dimension::Uptime && swap_elevated(readings)),
{
    law_findings_are_the_readings(readings, level, census, swap_total, n, config);
    let f = worklist(readings, level, census, swap_total, n, config)[k];
    if !closes(readings, level, census, swap_total, n, config, k) {
        assert(tells_some(f, readings, readings, census, swap_total, n, config));
    }
}

/// Every finding is out of band, carries the wording of its own action, and has a
/// line of names exactly when it names somebody.
pub proof fn law_findings_carry_their_wording(
    readings: Seq<ReadingView>,
    level: Level,
    census: Option<Census>,
    swap_total: Option<u64>,
    n: Numbers,
    config: PressureConfig,
    k: int,
)
    requires
        0 <= k < worklist(readings, level, census, swap_total, n, config).len(),
    ensures
        ({
            let f = worklist(readings, level, census, swap_total, n, config)[k];
            &&& f.band != Band::Green
            &&& f.action_label == f.action.label_text()
            &&& f.who_line == line_of(f.who)
            &&& f.who_line is Some <==> f.who.len() > 0
        }),
{
    law_findings_are_the_readings(readings, level, census, swap_total, n, config);
    let f = worklist(readings, level, census, swap_total, n, config)[k];
    assert(tells_some(f, readings, readings, census, swap_total, n, config) || closes(
        readings,
        level,
        census,
        swap_total,
        n,
        config,
        k,
    ));
}

/// Before anybody has looked nobody is named, and a busy CPU promises nothing to
/// reap.
pub proof fn law_no_census_no_names(
    readings: Seq<ReadingView>,
    level: Level,
    swap_total: Option<u64>,
    n: Numbers,
    config: PressureConfig,
    k: int,
)
    requires
        0 <= k < worklist(readings, level, None, swap_total, n, config).len(),
    ensures
        ({
            let f = worklist(readings, level, None, swap_total, n, config)[k];
            &&& f.who.len() == 0
            &&& f.who_line is None
            &&& f.dimension == Dimension::Cpu ==> f.action == Action::Nothing
        }),
{
    law_findings_are_the_readings(readings, level, None, swap_total, n, config);
    let f = worklist(readings, level, None, swap_total, n, config)[k];
    assert(tells_some(f, readings, readings, None, swap_total, n, config) || closes(
        readings,
        level,
        None,
        swap_total,
        n,
        config,
        k,
    ));
}

/// At the top level with swap red a reboot is always offered; below it the
/// worklist is the findings alone.
pub proof fn law_the_last_resort(
    readings: Seq<ReadingView>,
    level: Level,
    census: Option<Census>,
    swap_total: Option<u64>,
    n: Numbers,
    config: PressureConfig,
)
    ensures
        level == Level::Shrieking && swap_red(readings) ==> offers_reboot(
            worklist(readings, level, census, swap_total, n, config),
        ),
        level != Level::Shrieking ==> worklist(readings, level, census, swap_total, n, config)
            == ranked_findings(readings, census, swap_total, n, config),
{
    let ranked = ranked_findings(readings, census, swap_total, n, config);
    let all = worklist(readings, level, census, swap_total, n, config);
    if level == Level::Shrieking && swap_red(readings) && !offers_reboot(ranked) {
        assert(all[all.len() - 1].action == Action::Reboot);
    }
}

/// Some session of a census is stale.
pub open spec fn some_stale(census: Option<Census>) -> bool {
    census matches Some(c) && exists|i: int|
        0 <= i < c.agent_sessions@.len() && (#[trigger] c.agent_sessions@[i]).is_stale
}

proof fn lemma_some_stale(sessions: Seq<crate::census::AgentSession>)
    ensures
        stale_in(sessions) > 0 <==> exists|i: int|
            0 <= i < sessions.len() && (#[trigger] sessions[i]).is_stale,
    decreases sessions.len(),
{
    if sessions.len() > 0 {
        let front = sessions.drop_last();
        lemma_some_stale(front);
        if sessions.last().is_stale {
            assert(sessions[sessions.len() - 1].is_stale);
        }
        if exists|i: int| 0 <= i < front.len() && (#[trigger] front[i]).is_stale {
            let i = choose|i: int| 0 <= i < front.len() && (#[trigger] front[i]).is_stale;
            assert(sessions[i].is_stale);
        }
        if exists|i: int| 0 <= i < sessions.len() && (#[trigger] sessions[i]).is_stale {
            let i = choose|i: int| 0 <= i < sessions.len() && (#[trigger] sessions[i]).is_stale;
            if i < front.len() {
                assert(front[i].is_stale);
            }
        }
    }
}

/// What is done about a reading: memory, in whatever way it is short, is had from
/// the biggest apps; stale sessions and orphans are reaped; a volume is looked
/// into; a long uptime ends with a reboot; and about heat and managed agents
/// nothing can be done. A CPU is relieved by reaping where it is red and some
/// session is stale.
pub open spec fn is_remedy(a: Action, r: ReadingView, census: Option<Census>) -> bool {
    let memory = r.dimension == Dimension::Memory || r.dimension == Dimension::Swap || r.dimension
        == Dimension::KernelPressure || r.dimension == Dimension::Jetsam || r.dimension
        == Dimension::KernelFree || r.dimension == Dimension::Compressor || r.dimension
        == Dimension::Thrash;
    &&& memory ==> a == Action::RelaunchApps
    &&& r.dimension == Dimension::Agents ==> a == Action::ReapStaleSessions
    &&& r.dimension == Dimension::Orphans ==> a == Action::ReapOrphans
    &&& r.dimension == Dimension::Disk ==> a == Action::OpenDiskTool
    &&& r.dimension == Dimension::Uptime ==> a == Action::Reboot
    &&& r.dimension == Dimension::Thermal || r.dimension == Dimension::Corporate ==> a
        == Action::Nothing
    &&& r.dimension == Dimension::Cpu ==> a == if r.band == Band::Red && some_stale(census) {
        Action::ReapStaleSessions
    } else {
        Action::Nothing
    }
}

/// What makes a finding: out of green, and not advisory unless it is a long uptime
/// while some reading of swap is out of green.
pub open spec fn is_alarming(r: ReadingView, readings: Seq<ReadingView>) -> bool {
    &&& r.band == Band::Yellow || r.band == Band::Red
    &&& !r.advisory || (r.dimension == Dimension::Uptime && exists|i: int|
        0 <= i < readings.len() && (#[trigger] readings[i]).dimension == Dimension::Swap && (
        readings[i].band == Band::Yellow || readings[i].band == Band::Red))
}

/// A finding is of a reading: its dimension, its band, its own words and its remedy,
/// with whoever the census shows behind that dimension.
pub open spec fn is_finding_of(
    f: FindingView,
    r: ReadingView,
    census: Option<Census>,
    swap_total: Option<u64>,
    n: Numbers,
    config: PressureConfig,
) -> bool {
    &&& f.dimension == r.dimension
    &&& f.band == r.band
    &&& f.message == message_text(r, swap_total, n.figures@[r.dimension.place()].words)
    &&& is_remedy(f.action, r, census)
    &&& census matches Some(c) ==> f.who == worded(
        suspects_of(r.dimension, c, n.rates@, config),
        n.figures@[r.dimension.place()].measures@,
    )
    &&& census is None ==> f.who.len() == 0
}

proof fn lemma_finding_of(
    r: ReadingView,
    census: Option<Census>,
    swap_total: Option<u64>,
    n: Numbers,
    config: PressureConfig,
)
    ensures
        is_finding_of(
            finding_of(r, census, swap_total, n, config),
            r,
            census,
            swap_total,
            n,
            config,
        ),
{
    if let Some(c) = census {
        lemma_some_stale(c.agent_sessions@);
    }
}

/// Every alarming reading has its finding in the worklist.
pub proof fn law_what_alarms_is_listed(
    readings: Seq<ReadingView>,
    level: Level,
    census: Option<Census>,
    swap_total: Option<u64>,
    n: Numbers,
    config: PressureConfig,
    i: int,
)
    requires
        0 <= i < readings.len(),
        is_alarming(readings[i], readings),
    ensures
        exists|f: FindingView| #[trigger]
            worklist(readings, level, census, swap_total, n, config).contains(f) && is_finding_of(
                f,
                readings[i],
                census,
                swap_total,
                n,
                config,
            ),
{
    law_findings_are_the_readings(readings, level, census, swap_total, n, config);
    lemma_finding_of(readings[i], census, swap_total, n, config);
    assert(admitted(readings[i], readings));
}

/// And what is listed alarms: each entry is the finding of an alarming reading, or
/// the reboot that stands last where the machine shrieks and swap is red.
pub proof fn law_what_is_listed_alarms(
    readings: Seq<ReadingView>,
    level: Level,
    census: Option<Census>,
    swap_total: Option<u64>,
    n: Numbers,
    config: PressureConfig,
    k: int,
)
    requires
        0 <= k < worklist(readings, level, census, swap_total, n, config).len(),
    ensures
        ({
            let all = worklist(readings, level, census, swap_total, n, config);
            ||| exists|i: int|
                0 <= i < readings.len() && is_alarming(#[trigger] readings[i], readings)
                    && is_finding_of(all[k], readings[i], census, swap_total, n, config)
            ||| {
                &&& k == all.len() - 1
                &&& all[k].action == Action::Reboot
                &&& all[k].dimension == Dimension::Compressor
                &&& all[k].band == Band::Red
                &&& all[k].who.len() == 0
                &&& level == Level::Shrieking
                &&& exists|i: int|
                    0 <= i < readings.len() && (#[trigger] readings[i]).dimension
                        == Dimension::Swap && readings[i].band == Band::Red
            }
        }),
{
    law_findings_are_the_readings(readings, level, census, swap_total, n, config);
    let all = worklist(readings, level, census, swap_total, n, config);
    if !closes(readings, level, census, swap_total, n, config, k) {
        assert(tells_some(all[k], readings, readings, census, swap_total, n, config));
        let i = choose|i: int|
            0 <= i < readings.len() && admitted(#[trigger] readings[i], readings) && all[k]
                == finding_of(readings[i], census, swap_total, n, config);
        lemma_finding_of(readings[i], census, swap_total, n, config);
        assert(is_alarming(readings[i], readings));
    }
}

/// Each alarming reading is listed once: there are as many entries as alarming
/// readings, and one more where a reboot closes the list.
pub proof fn law_what_alarms_is_listed_once(
    readings: Seq<ReadingView>,
    level: Level,
    census: Option<Census>,
    swap_total: Option<u64>,
    n: Numbers,
    config: PressureConfig,
)
    ensures
        ({
            let all = worklist(readings, level, census, swap_total, n, config);
            let alarming = readings.filter(|r: ReadingView| is_alarming(r, readings)).len();
            &&& alarming <= all.len() <= alarming + 1
            &&& all.len() == alarming + 1 ==> all.last().dimension == Dimension::Compressor
                && all.last().action == Action::Reboot
        }),
{
    lemma_raw_len(readings, readings, census, swap_total, n, config);
    let raw = raw_entries(readings, readings, census, swap_total, n, config);
    lemma_sorted_len(raw, order::<Entry>());
}

proof fn lemma_raw_len(
    some: Seq<ReadingView>,
    readings: Seq<ReadingView>,
    census: Option<Census>,
    swap_total: Option<u64>,
    n: Numbers,
    config: PressureConfig,
)
    ensures
        raw_entries(some, readings, census, swap_total, n, config).len() == some.filter(
            |r: ReadingView| is_alarming(r, readings),
        ).len(),
    decreases some.len(),
{
    reveal(Seq::filter);
    if some.len() > 0 {
        lemma_raw_len(some.drop_last(), readings, census, swap_total, n, config);
        lemma_alarming(some.last(), readings);
    }
}

proof fn lemma_alarming(r: ReadingView, readings: Seq<ReadingView>)
    ensures
        is_alarming(r, readings) <==> admitted(r, readings),
{
    if swap_elevated(readings) {
        let i = choose|i: int|
            0 <= i < readings.len() && (#[trigger] readings[i]).dimension == Dimension::Swap
                && readings[i].band != Band::Green;
        assert(readings[i].band == Band::Yellow || readings[i].band == Band::Red);
    }
}

/// What an action brings: the lower, the sooner it is proposed.
pub open spec fn proposed_before(a: Action, b: Action) -> bool {
    match a {
        Action::ReapStaleSessions => b != Action::ReapStaleSessions,
        Action::ReapOrphans => b != Action::ReapStaleSessions && b != Action::ReapOrphans,
        Action::RelaunchApps => b == Action::OpenDiskTool || b == Action::Reboot || b
            == Action::Nothing,
        Action::OpenDiskTool => b == Action::Reboot || b == Action::Nothing,
        Action::Reboot => b == Action::Nothing,
        Action::Nothing => false,
    }
}

/// The worklist is in the order of what its actions bring, but for a reboot that
/// closes it, and red comes before yellow within one action.
pub proof fn law_the_best_lever_comes_first(
    readings: Seq<ReadingView>,
    level: Level,
    census: Option<Census>,
    swap_total: Option<u64>,
    n: Numbers,
    config: PressureConfig,
    i: int,
    j: int,
)
    requires
        0 <= i < j < worklist(readings, level, census, swap_total, n, config).len(),
    ensures
        ({
            let all = worklist(readings, level, census, swap_total, n, config);
            let (f, g) = (all[i], all[j]);
            ||| {
                &&& !proposed_before(g.action, f.action)
                &&& f.action == g.action && g.band == Band::Red ==> f.band == Band::Red
            }
            ||| {
                &&& j == all.len() - 1
                &&& g.action == Action::Reboot
                &&& g.dimension == Dimension::Compressor
            }
        }),
{
    law_findings_are_in_order(readings, census, swap_total, n, config);
    law_findings_are_the_readings(readings, level, census, swap_total, n, config);
    let entries = ranked_entries(readings, census, swap_total, n, config);
    let all = worklist(readings, level, census, swap_total, n, config);
    if j < entries.len() {
        assert(!order::<Entry>()(entries[j], entries[i]));
        assert(all[i] == entries[i].finding);
        assert(all[j] == entries[j].finding);
        assert(tells_some(all[i], readings, readings, census, swap_total, n, config) || closes(
            readings,
            level,
            census,
            swap_total,
            n,
            config,
            i,
        ));
    }
}

/// Among readings with one remedy and one band, the one further past its line comes
/// first.
pub proof fn law_the_furthest_comes_first(
    readings: Seq<ReadingView>,
    level: Level,
    census: Option<Census>,
    swap_total: Option<u64>,
    n: Numbers,
    config: PressureConfig,
    a: int,
    b: int,
)
    requires
        0 <= a < readings.len(),
        0 <= b < readings.len(),
        is_alarming(readings[a], readings),
        is_alarming(readings[b], readings),
        readings[a].band == readings[b].band,
        readings[b].severity.below(readings[a].severity),
        exists|act: Action|
            is_remedy(act, readings[a], census) && #[trigger] is_remedy(act, readings[b], census),
    ensures
        exists|i: int, j: int|
            0 <= i < j < worklist(readings, level, census, swap_total, n, config).len()
                && is_finding_of(
                #[trigger] worklist(readings, level, census, swap_total, n, config)[i],
                readings[a],
                census,
                swap_total,
                n,
                config,
            ) && is_finding_of(
                #[trigger] worklist(readings, level, census, swap_total, n, config)[j],
                readings[b],
                census,
                swap_total,
                n,
                config,
            ),
{
    broadcast use vstd::seq_lib::group_to_multiset_ensures;

    let raw = raw_entries(readings, readings, census, swap_total, n, config);
    let entries = ranked_entries(readings, census, swap_total, n, config);
    let all = worklist(readings, level, census, swap_total, n, config);
    let x = entry_of(readings[a], census, swap_total, n, config);
    let y = entry_of(readings[b], census, swap_total, n, config);
    lemma_alarming(readings[a], readings);
    lemma_alarming(readings[b], readings);
    lemma_finding_of(readings[a], census, swap_total, n, config);
    lemma_finding_of(readings[b], census, swap_total, n, config);
    lemma_raw_entries(readings, readings, census, swap_total, n, config);
    lemma_entries_are_ranked();
    law_sorting(raw, order::<Entry>(), |e: EntryView| true);
    law_findings_are_in_order(readings, census, swap_total, n, config);
    assert(raw.contains(x) && raw.contains(y));
    assert(raw.to_multiset().count(x) > 0 && raw.to_multiset().count(y) > 0);
    assert(entries.contains(x) && entries.contains(y));
    let i = choose|i: int| 0 <= i < entries.len() && entries[i] == x;
    let j = choose|j: int| 0 <= j < entries.len() && entries[j] == y;
    assert(x.finding.action == y.finding.action);
    assert(i < j) by {
        if j < i {
            assert(!entries[j].severity.below(entries[i].severity));
        }
    }
    assert(all[i] == x.finding);
    assert(all[j] == y.finding);
}

/// A reboot is proposed where the machine shrieks and swap is red, and nothing is
/// a reboot otherwise but a long uptime.
pub proof fn law_when_a_reboot_is_proposed(
    readings: Seq<ReadingView>,
    level: Level,
    census: Option<Census>,
    swap_total: Option<u64>,
    n: Numbers,
    config: PressureConfig,
)
    ensures
        ({
            let all = worklist(readings, level, census, swap_total, n, config);
            let pinned = level == Level::Shrieking && exists|i: int|
                0 <= i < readings.len() && (#[trigger] readings[i]).dimension == Dimension::Swap
                    && readings[i].band == Band::Red;
            &&& pinned ==> exists|k: int|
                0 <= k < all.len() && (#[trigger] all[k]).action == Action::Reboot
            &&& forall|k: int|
                0 <= k < all.len() && (#[trigger] all[k]).action == Action::Reboot ==> pinned
                    || all[k].dimension == Dimension::Uptime
        }),
{
    let all = worklist(readings, level, census, swap_total, n, config);
    law_the_last_resort(readings, level, census, swap_total, n, config);
    assert forall|k: int| 0 <= k < all.len() && (#[trigger] all[k]).action == Action::Reboot implies (
    level == Level::Shrieking && exists|i: int|
        0 <= i < readings.len() && (#[trigger] readings[i]).dimension == Dimension::Swap
            && readings[i].band == Band::Red) || all[k].dimension == Dimension::Uptime by {
        law_what_is_listed_alarms(readings, level, census, swap_total, n, config, k);
    }
}

/// Among readings with one remedy, one band and one severity, the one declared first
/// comes first.
pub proof fn law_equals_come_as_declared(
    readings: Seq<ReadingView>,
    level: Level,
    census: Option<Census>,
    swap_total: Option<u64>,
    n: Numbers,
    config: PressureConfig,
    a: int,
    b: int,
)
    requires
        0 <= a < readings.len(),
        0 <= b < readings.len(),
        is_alarming(readings[a], readings),
        is_alarming(readings[b], readings),
        readings[a].band == readings[b].band,
        readings[a].severity.same(readings[b].severity),
        readings[a].dimension.place() < readings[b].dimension.place(),
        exists|act: Action|
            is_remedy(act, readings[a], census) && #[trigger] is_remedy(act, readings[b], census),
    ensures
        exists|i: int, j: int|
            0 <= i < j < worklist(readings, level, census, swap_total, n, config).len()
                && is_finding_of(
                #[trigger] worklist(readings, level, census, swap_total, n, config)[i],
                readings[a],
                census,
                swap_total,
                n,
                config,
            ) && is_finding_of(
                #[trigger] worklist(readings, level, census, swap_total, n, config)[j],
                readings[b],
                census,
                swap_total,
                n,
                config,
            ),
{
    broadcast use vstd::seq_lib::group_to_multiset_ensures;

    let raw = raw_entries(readings, readings, census, swap_total, n, config);
    let entries = ranked_entries(readings, census, swap_total, n, config);
    let all = worklist(readings, level, census, swap_total, n, config);
    let x = entry_of(readings[a], census, swap_total, n, config);
    let y = entry_of(readings[b], census, swap_total, n, config);
    lemma_alarming(readings[a], readings);
    lemma_alarming(readings[b], readings);
    lemma_finding_of(readings[a], census, swap_total, n, config);
    lemma_finding_of(readings[b], census, swap_total, n, config);
    lemma_raw_entries(readings, readings, census, swap_total, n, config);
    lemma_entries_are_ranked();
    law_sorting(raw, order::<Entry>(), |e: EntryView| true);
    law_findings_are_in_order(readings, census, swap_total, n, config);
    assert(raw.contains(x) && raw.contains(y));
    assert(raw.to_multiset().count(x) > 0 && raw.to_multiset().count(y) > 0);
    assert(entries.contains(x) && entries.contains(y));
    let i = choose|i: int| 0 <= i < entries.len() && entries[i] == x;
    let j = choose|j: int| 0 <= j < entries.len() && entries[j] == y;
    assert(x.finding.action == y.finding.action);
    assert(order::<Entry>()(x, y));
    assert(i < j) by {
        if j < i {
            assert(!order::<Entry>()(entries[i], entries[j]));
        }
    }
    assert(all[i] == x.finding);
    assert(all[j] == y.finding);
}

/// The reboot that closes the worklist says why, with what is held compressed where
/// that was read.
pub proof fn law_the_last_resort_says_why(
    readings: Seq<ReadingView>,
    level: Level,
    census: Option<Census>,
    swap_total: Option<u64>,
    n: Numbers,
    config: PressureConfig,
)
    requires
        worklist(readings, level, census, swap_total, n, config).len() > readings.filter(
            |r: ReadingView| is_alarming(r, readings),
        ).len(),
    ensures
        ({
            let f = worklist(readings, level, census, swap_total, n, config).last();
            let read = exists|i: int|
                0 <= i < readings.len() && (#[trigger] readings[i]).dimension
                    == Dimension::Compressor;
            let amount = n.figures@[Dimension::Compressor.place()].words.amount@;
            &&& read ==> f.message == "Swap has stayed pinned and "@ + amount
                + " is held compressed. Only a reboot truly resets a saturated compressor pool."@
            &&& !read ==> f.message
                == "Swap has stayed pinned. Only a reboot truly resets a saturated compressor pool."@
            &&& f.action == Action::Reboot
        }),
{
    lemma_raw_len(readings, readings, census, swap_total, n, config);
    let raw = raw_entries(readings, readings, census, swap_total, n, config);
    lemma_sorted_len(raw, order::<Entry>());
}

} // verus!

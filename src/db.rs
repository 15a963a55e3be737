//! The registry of tracked components and the usage accrued since service.
//!
//! The registry is read-only here: it offers enumeration and lookup only.

use vstd::prelude::*;
use crate::duration_text::{clamp_u64, is_digit};
use crate::errors::{EntryFault, Error, RegistryFault};
use crate::garmin::activities::{
    lemma_total_after_all, total_after, total_after_in, total_of, Activities, Activity,
};
use crate::instant::{epoch, later, parse_utc, utc_of, Instant};

verus! {

broadcast use vstd::laws_cmp::group_laws_cmp;

/// A registry entry as written in the registry document: a name, an interval
/// in a unit-suffixed form such as `"500h"` or `"30d"`, and service dates as
/// RFC 3339 timestamps.
#[derive(Clone, Debug)]
pub struct ComponentEntry {
    pub name: String,
    pub interval: String,
    pub serviced: Vec<String>,
}

/// What `humantime::parse_duration` reads from a unit-suffixed duration text:
/// whole seconds and nanoseconds, or `None` where `s` is not such a text.
pub uninterp spec fn humantime_of(s: Seq<char>) -> Option<(u64, u32)>;

/// The most decimal digits an interval text may hold. With at most this
/// many digits the terms of a text add up to less than `10^11` years, far
/// below `u64::MAX` seconds, so reading it never overflows the seconds.
pub const MAX_INTERVAL_DIGITS: usize = 11;

/// The number of ASCII decimal digits in `s`.
pub open spec fn digit_count(s: Seq<char>) -> nat
    decreases s.len(),
{
    if s.len() == 0 {
        0
    } else {
        digit_count(s.drop_last()) + if is_digit(s.last()) {
            1nat
        } else {
            0nat
        }
    }
}

/// The number of ASCII decimal digits in `s`.
pub fn count_digits(s: &str) -> (r: usize)
    ensures
        r == digit_count(s@),
{
    let n = s.unicode_len();
    let mut count: usize = 0;
    let mut i: usize = 0;
    while i < n
        invariant
            n == s@.len(),
            i <= n,
            count == digit_count(s@.subrange(0, i as int)),
            count <= i,
        decreases n - i,
    {
        assert(s@.subrange(0, i + 1).drop_last() =~= s@.subrange(0, i as int));
        let c = s.get_char(i);
        if '0' <= c && c <= '9' {
            count = count + 1;
        }
        i = i + 1;
    }
    assert(s@.subrange(0, i as int) =~= s@);
    count
}

/// Relies on `humantime::parse_duration` to read a duration such as `"500h"`.
/// It panics where the terms add up to exactly `u64::MAX` seconds and one
/// billion nanoseconds; a text of at most `MAX_INTERVAL_DIGITS` digits never
/// gets near `u64::MAX` seconds.
#[verifier::external_body]
fn parse_interval(s: &str) -> (r: Option<(u64, u32)>)
    requires
        digit_count(s@) <= MAX_INTERVAL_DIGITS,
    ensures
        r == humantime_of(s@),
{
    humantime::parse_duration(s).ok().map(|d| (d.as_secs(), d.subsec_nanos()))
}

/// The key under which an instant is kept: seconds, then nanoseconds.
pub open spec fn stamp(t: Instant) -> (i64, u32) {
    (t.secs, t.nanos)
}

/// The instant kept under a key.
pub open spec fn instant_of(x: (i64, u32)) -> Instant {
    Instant { secs: x.0, nanos: x.1 }
}

/// `t` is in the set and no instant of the set lies after it.
pub open spec fn is_latest_in(s: Set<(i64, u32)>, t: Instant) -> bool {
    &&& s.contains(stamp(t))
    &&& forall|x: (i64, u32)| #[trigger] s.contains(x) ==> !later(instant_of(x), t)
}

/// The latest instant of a set, or `None` for an empty one.
pub open spec fn latest_in(s: Set<(i64, u32)>) -> Option<Instant> {
    if exists|t: Instant| is_latest_in(s, t) {
        Some(choose|t: Instant| is_latest_in(s, t))
    } else {
        None
    }
}

/// Relies on `BTreeSet::last`, which returns the maximum element; tuples
/// are ordered lexicographically, so that is the latest instant.
#[verifier::external_body]
fn last_stamp(s: &std::collections::BTreeSet<(i64, u32)>) -> (r: Option<(i64, u32)>)
    ensures
        match r {
            None => s@ == Set::<(i64, u32)>::empty(),
            Some(x) => s@.contains(x) && forall|y: (i64, u32)|
                #[trigger] s@.contains(y) ==> !later(instant_of(y), instant_of(x)),
        },
{
    s.last().copied()
}

/// The service dates of a list of parsed timestamps, or the position of the
/// first one that did not parse.
pub open spec fn dates_of(parsed: Seq<Option<(i64, u32)>>) -> Result<Seq<Instant>, int>
    decreases parsed.len(),
{
    if parsed.len() == 0 {
        Ok(Seq::empty())
    } else {
        match dates_of(parsed.drop_last()) {
            Err(k) => Err(k),
            Ok(d) => match parsed.last() {
                None => Err(parsed.len() - 1),
                Some(t) => Ok(d.push(Instant { secs: t.0, nanos: t.1 })),
            },
        }
    }
}

/// Why a component with this parsed interval and these parsed service dates
/// is rejected, if it is.
pub open spec fn parts_fault(interval: Option<(u64, u32)>, parsed: Seq<Option<(i64, u32)>>) -> Option<
    EntryFault,
> {
    if interval is None {
        Some(EntryFault::Interval)
    } else {
        match dates_of(parsed) {
            Err(k) => Some(EntryFault::ServiceDate(k as usize)),
            Ok(_) => None,
        }
    }
}

/// The parsed interval of an entry; an interval text with more than
/// `MAX_INTERVAL_DIGITS` digits is rejected unread.
pub open spec fn entry_interval(e: ComponentEntry) -> Option<(u64, u32)> {
    if digit_count(e.interval@) <= MAX_INTERVAL_DIGITS {
        humantime_of(e.interval@)
    } else {
        None
    }
}

/// The parsed service dates of an entry.
pub open spec fn entry_dates(e: ComponentEntry) -> Seq<Option<(i64, u32)>> {
    e.serviced.deep_view().map_values(|t: Seq<char>| utc_of(t))
}

/// Why an entry is rejected, if it is.
pub open spec fn entry_fault(e: ComponentEntry) -> Option<EntryFault> {
    parts_fault(entry_interval(e), entry_dates(e))
}

/// Service data for a single component: its name, its service interval in
/// whole seconds, and the set of dates at which it was serviced.
#[derive(Clone, Debug)]
pub struct Component {
    name: String,
    interval: u64,
    serviced: std::collections::BTreeSet<(i64, u32)>,
}

impl Component {
    pub closed spec fn spec_name(&self) -> Seq<char> {
        self.name@
    }

    pub closed spec fn spec_interval(&self) -> u64 {
        self.interval
    }

    /// The service dates, as keys.
    pub closed spec fn spec_serviced(&self) -> Set<(i64, u32)> {
        self.serviced@
    }

    /// The latest service date, if the component was ever serviced.
    pub open spec fn spec_last_serviced(&self) -> Option<Instant> {
        latest_in(self.spec_serviced())
    }

    /// The instant after which activities count: the latest service date,
    /// or the epoch for a component never serviced.
    pub open spec fn cutoff(&self) -> Instant {
        match self.spec_last_serviced() {
            Some(t) => t,
            None => epoch(),
        }
    }

    /// The usage accrued since the last service, before clamping.
    pub open spec fn accrued(&self, acts: Seq<Activity>) -> int {
        total_after(acts, self.cutoff())
    }

    /// `self` has this name, the whole seconds of this interval, and the
    /// set of these service dates.
    pub open spec fn made_of(
        &self,
        name: Seq<char>,
        interval: Option<(u64, u32)>,
        parsed: Seq<Option<(i64, u32)>>,
    ) -> bool {
        &&& self.spec_name() == name
        &&& interval matches Some(iv) && self.spec_interval() == iv.0
        &&& dates_of(parsed) matches Ok(d) && forall|x: (i64, u32)|
            #[trigger] self.spec_serviced().contains(x) <==> d.contains(instant_of(x))
    }

    /// `self` is what `e` describes.
    pub open spec fn describes(&self, e: ComponentEntry) -> bool {
        self.made_of(e.name@, entry_interval(e), entry_dates(e))
    }

    /// Decodes a registry entry: reads its interval and service dates, then
    /// builds the component from them. An interval text with more than
    /// `MAX_INTERVAL_DIGITS` digits is rejected as `EntryFault::Interval`.
    pub fn from_entry(e: &ComponentEntry) -> (r: Result<Component, EntryFault>)
        ensures
            match entry_fault(*e) {
                Some(f) => r == Err::<Component, EntryFault>(f),
                None => r matches Ok(c) && c.describes(*e),
            },
    {
        let interval = if count_digits(e.interval.as_str()) <= MAX_INTERVAL_DIGITS {
            parse_interval(e.interval.as_str())
        } else {
            None
        };
        let ghost texts = e.serviced.deep_view();
        let mut parsed: Vec<Option<(i64, u32)>> = Vec::new();
        let mut i: usize = 0;
        while i < e.serviced.len()
            invariant
                texts == e.serviced.deep_view(),
                texts.len() == e.serviced@.len(),
                i <= texts.len(),
                parsed@ =~= texts.subrange(0, i as int).map_values(|t: Seq<char>| utc_of(t)),
            decreases texts.len() - i,
        {
            assert(texts[i as int] == e.serviced@[i as int]@);
            parsed.push(parse_utc(e.serviced[i].as_str()));
            i = i + 1;
        }
        assert(texts.subrange(0, i as int) =~= texts);
        Component::from_parts(e.name.clone(), interval, &parsed)
    }

    /// Builds a component from its name, its parsed interval and its parsed
    /// service dates. The interval keeps its whole seconds (usage is counted
    /// in whole seconds, so a sub-second part never changes whether service
    /// is due); duplicate service dates collapse.
    pub fn from_parts(
        name: String,
        interval: Option<(u64, u32)>,
        parsed: &Vec<Option<(i64, u32)>>,
    ) -> (r: Result<Component, EntryFault>)
        ensures
            match parts_fault(interval, parsed@) {
                Some(f) => r == Err::<Component, EntryFault>(f),
                None => r matches Ok(c) && c.made_of(name@, interval, parsed@),
            },
    {
        let ghost given = interval;
        let secs = match interval {
            Some(iv) => iv.0,
            None => {
                return Err(EntryFault::Interval);
            },
        };
        let ghost given_dates = parsed@;
        let mut serviced: std::collections::BTreeSet<(i64, u32)> = std::collections::BTreeSet::new();
        let ghost mut dates: Seq<Instant> = Seq::empty();
        let mut i: usize = 0;
        assert(given_dates.subrange(0, 0) =~= Seq::<Option<(i64, u32)>>::empty());
        while i < parsed.len()
            invariant
                given_dates == parsed@,
                given == interval,
                given matches Some(iv) && iv.0 == secs,
                i <= given_dates.len(),
                dates_of(given_dates.subrange(0, i as int)) == Ok::<Seq<Instant>, int>(dates),
                forall|x: (i64, u32)| #[trigger] serviced@.contains(x) <==> dates.contains(instant_of(x)),
            decreases given_dates.len() - i,
        {
            let ghost next = given_dates.subrange(0, i + 1);
            assert(next.drop_last() =~= given_dates.subrange(0, i as int));
            match parsed[i] {
                None => {
                    proof {
                        lemma_dates_prefix_err(given_dates, i as int);
                    }
                    return Err(EntryFault::ServiceDate(i));
                },
                Some(t) => {
                    let ghost old_serviced = serviced@;
                    serviced.insert(t);
                    proof {
                        let x = instant_of(t);
                        let nd = dates.push(x);
                        assert forall|y: (i64, u32)| #[trigger] serviced@.contains(y) <==> nd.contains(instant_of(y)) by {
                            if nd.contains(instant_of(y)) && y != t {
                                let k = choose|k: int| 0 <= k < nd.len() && nd[k] == instant_of(y);
                                assert(k < dates.len());
                                assert(dates[k] == instant_of(y));
                                assert(old_serviced.contains(y));
                            }
                            if serviced@.contains(y) && y != t {
                                assert(old_serviced.contains(y));
                                let k = choose|k: int| 0 <= k < dates.len() && dates[k] == instant_of(y);
                                assert(nd[k] == instant_of(y));
                            }
                            if y == t {
                                assert(nd[nd.len() - 1] == x);
                            }
                        }
                        dates = nd;
                    }
                },
            }
            i = i + 1;
        }
        assert(given_dates.subrange(0, i as int) =~= given_dates);
        Ok(Component { name, interval: secs, serviced })
    }

    /// Name of the component.
    pub fn name(&self) -> (r: &str)
        ensures
            r@ == self.spec_name(),
    {
        self.name.as_str()
    }

    /// Service interval of the component, in whole seconds.
    pub fn interval(&self) -> (r: u64)
        ensures
            r == self.spec_interval(),
    {
        self.interval
    }

    /// The latest service date; `None` if the component was never serviced.
    pub fn last_serviced(&self) -> (r: Option<Instant>)
        ensures
            r == self.spec_last_serviced(),
    {
        match last_stamp(&self.serviced) {
            None => {
                assert(!exists|t: Instant| is_latest_in(self.serviced@, t));
                None
            },
            Some(x) => {
                let t = Instant { secs: x.0, nanos: x.1 };
                proof {
                    assert(is_latest_in(self.serviced@, t));
                    let c = choose|c: Instant| is_latest_in(self.serviced@, c);
                    assert(!later(instant_of(stamp(c)), t));
                    assert(!later(instant_of(x), c));
                }
                Some(t)
            },
        }
    }

    /// Usage accrued since the component was last serviced: the clamped sum
    /// of the durations of the activities that start strictly after the
    /// latest service date. A component never serviced counts every activity
    /// after the epoch.
    pub fn duration_since_last_serviced(&self, activities: &[Activity]) -> (r: u64)
        ensures
            r == clamp_u64(self.accrued(activities@)),
    {
        let cutoff = match self.last_serviced() {
            Some(t) => t,
            None => Instant::unix_epoch(),
        };
        total_after_in(activities, cutoff)
    }
}

proof fn lemma_dates_prefix_err(parsed: Seq<Option<(i64, u32)>>, k: int)
    requires
        0 <= k < parsed.len(),
        dates_of(parsed.subrange(0, k)) is Ok,
        parsed[k] is None,
    ensures
        dates_of(parsed) == Err::<Seq<Instant>, int>(k),
    decreases parsed.len(),
{
    if parsed.len() == k + 1 {
        assert(parsed.drop_last() =~= parsed.subrange(0, k));
    } else {
        assert(parsed.drop_last().subrange(0, k) =~= parsed.subrange(0, k));
        lemma_dates_prefix_err(parsed.drop_last(), k);
    }
}

/// The component registry: components in document order.
#[derive(Clone, Debug)]
pub struct DB {
    components: Vec<Component>,
}

impl DB {
    pub closed spec fn spec_components(&self) -> Seq<Component> {
        self.components@
    }

    /// Builds the registry from the entries of a registry document. Decoding
    /// is strict: the first malformed entry rejects the whole registry.
    pub fn from_entries(entries: &Vec<ComponentEntry>) -> (r: Result<DB, Error>)
        ensures
            r is Ok <==> forall|i: int| 0 <= i < entries@.len() ==> entry_fault(#[trigger] entries@[i]) is None,
            r matches Ok(db) ==> db.spec_components().len() == entries@.len() && forall|i: int|
                0 <= i < entries@.len() ==> #[trigger] db.spec_components()[i].describes(entries@[i]),
            r matches Err(e) ==> exists|k: int|
                {
                    &&& 0 <= k < entries@.len()
                    &&& forall|j: int| 0 <= j < k ==> entry_fault(#[trigger] entries@[j]) is None
                    &&& entry_fault(#[trigger] entries@[k]) is Some
                    &&& e == fault_error(k, entry_fault(entries@[k])->Some_0)
                },
    {
        let mut components: Vec<Component> = Vec::new();
        let mut i: usize = 0;
        while i < entries.len()
            invariant
                i <= entries@.len(),
                components@.len() == i,
                forall|j: int| 0 <= j < i ==> entry_fault(#[trigger] entries@[j]) is None,
                forall|j: int| 0 <= j < i ==> #[trigger] components@[j].describes(entries@[j]),
            decreases entries@.len() - i,
        {
            match Component::from_entry(&entries[i]) {
                Ok(c) => {
                    components.push(c);
                },
                Err(f) => {
                    return Err(entry_error(i, f));
                },
            }
            i = i + 1;
        }
        Ok(DB { components })
    }

    /// The components, in document order.
    pub fn components(&self) -> (r: &[Component])
        ensures
            r@ == self.spec_components(),
    {
        self.components.as_slice()
    }

    /// Each component with the usage it accrued since its last service, in
    /// registry order.
    pub fn duration_since_last_serviced<'a>(&'a self, activities: &'a Activities) -> (r: Vec<(&'a Component, u64)>)
        ensures
            r@.len() == self.spec_components().len(),
            forall|i: int| 0 <= i < r@.len() ==> {
                &&& *(#[trigger] r@[i]).0 == self.spec_components()[i]
                &&& r@[i].1 == clamp_u64(self.spec_components()[i].accrued(activities@))
            },
    {
        let mut out: Vec<(&'a Component, u64)> = Vec::new();
        let mut i: usize = 0;
        while i < self.components.len()
            invariant
                i <= self.components@.len(),
                out@.len() == i,
                forall|j: int| 0 <= j < i ==> {
                    &&& *(#[trigger] out@[j]).0 == self.components@[j]
                    &&& out@[j].1 == clamp_u64(self.components@[j].accrued(activities@))
                },
            decreases self.components@.len() - i,
        {
            let c = &self.components[i];
            let d = c.duration_since_last_serviced(activities.iter());
            out.push((c, d));
            i = i + 1;
        }
        out
    }
}

/// The registry error for a fault of the entry at position `k`.
pub open spec fn fault_error(k: int, f: EntryFault) -> Error {
    match f {
        EntryFault::Interval => Error::DBFormatError(RegistryFault::Interval { component: k as usize }),
        EntryFault::ServiceDate(d) => Error::DBFormatError(
            RegistryFault::ServiceDate { component: k as usize, entry: d },
        ),
    }
}

fn entry_error(k: usize, f: EntryFault) -> (r: Error)
    ensures
        r == fault_error(k as int, f),
{
    match f {
        EntryFault::Interval => Error::DBFormatError(RegistryFault::Interval { component: k }),
        EntryFault::ServiceDate(d) => Error::DBFormatError(
            RegistryFault::ServiceDate { component: k, entry: d },
        ),
    }
}

/// Whether service is due: the accrued usage strictly exceeds the interval.
pub fn service_due(accrued: u64, interval: u64) -> (r: bool)
    ensures
        r == (accrued > interval),
{
    accrued > interval
}

/// A component never serviced accrues the total of the log, where every
/// activity starts after the epoch.
pub proof fn lemma_never_serviced_accrues_total(c: Component, acts: Seq<Activity>)
    requires
        c.spec_serviced() == Set::<(i64, u32)>::empty(),
        forall|i: int| 0 <= i < acts.len() ==> later(#[trigger] acts[i].date, epoch()),
    ensures
        c.spec_last_serviced() is None,
        c.accrued(acts) == total_of(acts),
{
    lemma_total_after_all(acts, epoch());
}

/// The boundary of the service window is strict: an activity that starts at
/// the instant of the last service adds nothing, and one that starts a
/// second later adds its whole duration.
pub proof fn lemma_service_boundary(c: Component, acts: Seq<Activity>, t: Instant, d: u64)
    requires
        c.spec_last_serviced() == Some(t),
        t.secs < i64::MAX,
    ensures
        c.accrued(acts.push(Activity { date: t, duration: d })) == c.accrued(acts),
        c.accrued(acts.push(Activity { date: Instant { secs: (t.secs + 1) as i64, nanos: t.nanos }, duration: d }))
            == c.accrued(acts) + d,
{
    assert(acts.push(Activity { date: t, duration: d }).drop_last() =~= acts);
    assert(acts.push(Activity { date: Instant { secs: (t.secs + 1) as i64, nanos: t.nanos }, duration: d }).drop_last()
        =~= acts);
}

} // verus!

//! Timing reports of the offline and online phases.
//!
//! Phases are kept in the order in which they were measured, and also summed up by kind
//! of work.

use vstd::prelude::*;
use crate::sums::{int_sum, lemma_int_sum_congruent};

verus! {

/// A span of time in nanoseconds.
#[derive(Clone, Copy, Debug, PartialEq, Eq, Structural)]
pub struct Duration {
    pub nanos: u128,
}

impl Default for Duration {
    fn default() -> (r: Self)
        ensures
            r.nanos == 0,
    {
        Duration { nanos: 0 }
    }
}

impl Duration {
    pub fn from_nanos(nanos: u128) -> (r: Self)
        ensures
            r.nanos == nanos,
    {
        Duration { nanos }
    }

    pub fn as_nanos(&self) -> (r: u128)
        ensures
            r == self.nanos,
    {
        self.nanos
    }

    /// Both spans, one after the other.
    pub fn plus(self, other: Duration) -> (r: Self)
        requires
            self.nanos + other.nanos <= u128::MAX,
        ensures
            r.nanos == self.nanos + other.nanos,
    {
        Duration { nanos: self.nanos + other.nanos }
    }
}

/// Whether two names are the same.
fn same_name(a: &'static str, b: &'static str) -> (r: bool)
    ensures
        r == (a@ == b@),
{
    let len: usize = a.unicode_len();
    if len != b.unicode_len() {
        return false;
    }
    let mut i: usize = 0;
    while i < len
        invariant
            i <= len,
            len == a@.len(),
            len == b@.len(),
            forall|j: int| 0 <= j < i ==> a@[j] == b@[j],
        decreases len - i,
    {
        if a.get_char(i) != b.get_char(i) {
            return false;
        }
        i = i + 1;
    }
    assert(a@ =~= b@);
    true
}

/// One measured offline phase.
#[derive(Clone, Copy, Debug)]
pub struct OfflinePhaseTiming {
    pub name: &'static str,
    pub duration: Duration,
}

impl OfflinePhaseTiming {
    pub fn name(&self) -> (r: &'static str)
        ensures
            r@ == self.name@,
    {
        self.name
    }

    pub fn duration(&self) -> (r: Duration)
        ensures
            r == self.duration,
    {
        self.duration
    }
}

/// Time of all offline phases together.
pub open spec fn offline_sum(phases: Seq<OfflinePhaseTiming>) -> int
    decreases phases.len(),
{
    if phases.len() == 0 {
        0
    } else {
        offline_sum(phases.drop_last()) + phases.last().duration.nanos
    }
}

/// The first phases together take no longer than all of them.
proof fn lemma_offline_prefix(phases: Seq<OfflinePhaseTiming>, i: int)
    requires
        0 <= i <= phases.len(),
    ensures
        0 <= offline_sum(phases.take(i)) <= offline_sum(phases),
        i < phases.len() ==> offline_sum(phases.take(i + 1)) == offline_sum(phases.take(i))
            + phases[i].duration.nanos,
    decreases phases.len(),
{
    if i < phases.len() {
        assert(phases.take(i + 1).drop_last() =~= phases.take(i));
        lemma_offline_prefix(phases.drop_last(), i);
        assert(phases.drop_last().take(i) =~= phases.take(i));
    } else {
        assert(phases.take(i) =~= phases);
        if phases.len() > 0 {
            lemma_offline_prefix(phases.drop_last(), phases.len() - 1);
            assert(phases.drop_last().take(phases.len() - 1) =~= phases.drop_last());
        }
    }
}

/// One measured online phase.
#[derive(Clone, Copy, Debug)]
pub struct OnlinePhaseTiming {
    pub name: &'static str,
    pub duration: Duration,
}

impl OnlinePhaseTiming {
    pub fn name(&self) -> (r: &'static str)
        ensures
            r@ == self.name@,
    {
        self.name
    }

    pub fn duration(&self) -> (r: Duration)
        ensures
            r == self.duration,
    {
        self.duration
    }
}

/// Time of all online phases together.
pub open spec fn online_sum(phases: Seq<OnlinePhaseTiming>) -> int
    decreases phases.len(),
{
    if phases.len() == 0 {
        0
    } else {
        online_sum(phases.drop_last()) + phases.last().duration.nanos
    }
}

/// The first phases together take no longer than all of them.
proof fn lemma_online_prefix(phases: Seq<OnlinePhaseTiming>, i: int)
    requires
        0 <= i <= phases.len(),
    ensures
        0 <= online_sum(phases.take(i)) <= online_sum(phases),
        i < phases.len() ==> online_sum(phases.take(i + 1)) == online_sum(phases.take(i))
            + phases[i].duration.nanos,
    decreases phases.len(),
{
    if i < phases.len() {
        assert(phases.take(i + 1).drop_last() =~= phases.take(i));
        lemma_online_prefix(phases.drop_last(), i);
        assert(phases.drop_last().take(i) =~= phases.take(i));
    } else {
        assert(phases.take(i) =~= phases);
        if phases.len() > 0 {
            lemma_online_prefix(phases.drop_last(), phases.len() - 1);
            assert(phases.drop_last().take(phases.len() - 1) =~= phases.drop_last());
        }
    }
}

/// Kinds of offline work.
#[derive(Clone, Copy, Debug, PartialEq, Eq, Structural)]
pub enum OfflineWork {
    Interpolation,
    PrepareU,
    UaMask,
    MaskPrep,
    PackPrecompute,
}

/// One entry of an offline report: a phase, and the kind of work that it counts for, if any.
#[derive(Clone, Copy, Debug)]
pub struct OfflineEntry {
    pub work: Option<OfflineWork>,
    pub name: &'static str,
    pub duration: Duration,
}

/// Time of the entries that count for a kind of work.
pub open spec fn offline_work_sum(entries: Seq<OfflineEntry>, work: OfflineWork) -> int
    decreases entries.len(),
{
    if entries.len() == 0 {
        0
    } else {
        offline_work_sum(entries.drop_last(), work) + (if entries.last().work == Some(work) {
            entries.last().duration.nanos as int
        } else {
            0
        })
    }
}

/// Time of all entries.
pub open spec fn offline_entry_sum(entries: Seq<OfflineEntry>) -> int
    decreases entries.len(),
{
    if entries.len() == 0 {
        0
    } else {
        offline_entry_sum(entries.drop_last()) + entries.last().duration.nanos
    }
}

/// Timing report of the offline work.
#[derive(Clone, Debug)]
pub struct OfflineTimings {
    pub phases: Vec<OfflinePhaseTiming>,
    pub interpolation: Duration,
    pub prepare_u: Duration,
    pub ua_mask: Duration,
    pub mask_prep: Duration,
    pub pack_precompute: Duration,
}

impl Default for OfflineTimings {
    fn default() -> (r: Self)
        ensures
            r.is_blank(),
            r.phases@.len() == 0,
            r.interpolation.nanos == 0,
            r.prepare_u.nanos == 0,
            r.ua_mask.nanos == 0,
            r.mask_prep.nanos == 0,
            r.pack_precompute.nanos == 0,
    {
        OfflineTimings {
            phases: Vec::new(),
            interpolation: Duration::from_nanos(0),
            prepare_u: Duration::from_nanos(0),
            ua_mask: Duration::from_nanos(0),
            mask_prep: Duration::from_nanos(0),
            pack_precompute: Duration::from_nanos(0),
        }
    }
}

impl OfflineTimings {
    /// Time of one kind of work.
    pub open spec fn bucket(self, work: OfflineWork) -> Duration {
        match work {
            OfflineWork::Interpolation => self.interpolation,
            OfflineWork::PrepareU => self.prepare_u,
            OfflineWork::UaMask => self.ua_mask,
            OfflineWork::MaskPrep => self.mask_prep,
            OfflineWork::PackPrecompute => self.pack_precompute,
        }
    }

    /// A report without entries.
    pub open spec fn is_blank(self) -> bool {
        self.phases@.len() == 0 && forall|work: OfflineWork| (#[trigger] self.bucket(work)).nanos == 0
    }

    /// `after` is this report with one more entry: its phase comes last, and its time is
    /// added to the kind of work that it counts for.
    pub open spec fn takes(self, entry: OfflineEntry, after: OfflineTimings) -> bool {
        &&& after.phases@ == self.phases@.push(
            OfflinePhaseTiming { name: entry.name, duration: entry.duration },
        )
        &&& forall|work: OfflineWork|
            (#[trigger] after.bucket(work)).nanos == self.bucket(work).nanos + (if entry.work
                == Some(work) {
                entry.duration.nanos as int
            } else {
                0
            })
    }

    /// The reports are those of a sequence of entries, from a report without entries on.
    pub open spec fn is_history(reports: Seq<OfflineTimings>, entries: Seq<OfflineEntry>) -> bool {
        &&& reports.len() == entries.len() + 1
        &&& reports[0].is_blank()
        &&& forall|i: int|
            0 <= i < entries.len() ==> (#[trigger] reports[i]).takes(entries[i], reports[i + 1])
    }

    /// Time by kind of work, all kinds together.
    pub open spec fn bucket_sum(self) -> int {
        self.interpolation.nanos + self.prepare_u.nanos + self.ua_mask.nanos
            + self.mask_prep.nanos + self.pack_precompute.nanos
    }

    pub open spec fn spec_total(self) -> int {
        if self.phases@.len() == 0 {
            self.bucket_sum()
        } else {
            offline_sum(self.phases@)
        }
    }

    /// The phases in the order in which they were measured.
    pub fn phases(&self) -> (r: &[OfflinePhaseTiming])
        ensures
            r@ == self.phases@,
    {
        self.phases.as_slice()
    }

    /// Time of all phases, or by kind of work where no phase was recorded.
    pub fn total(&self) -> (r: Duration)
        requires
            self.spec_total() <= u128::MAX,
        ensures
            r.nanos == self.spec_total(),
    {
        if self.phases.len() == 0 {
            return Duration {
                nanos: self.interpolation.nanos + self.prepare_u.nanos + self.ua_mask.nanos
                    + self.mask_prep.nanos + self.pack_precompute.nanos,
            };
        }
        let mut sum: u128 = 0;
        let mut i: usize = 0;
        assert(self.phases@.take(0) =~= Seq::<OfflinePhaseTiming>::empty());
        while i < self.phases.len()
            invariant
                i <= self.phases@.len(),
                sum == offline_sum(self.phases@.take(i as int)),
                offline_sum(self.phases@) <= u128::MAX,
            decreases self.phases@.len() - i,
        {
            proof {
                lemma_offline_prefix(self.phases@, i as int);
                lemma_offline_prefix(self.phases@, i + 1);
            }
            sum = sum + self.phases[i].duration.nanos;
            i = i + 1;
        }
        assert(self.phases@.take(self.phases@.len() as int) =~= self.phases@);
        Duration { nanos: sum }
    }

    /// Appends a phase.
    pub fn record_phase(&mut self, name: &'static str, duration: Duration)
        ensures
            old(self).takes((OfflineEntry { work: None, name, duration }), *final(self)),
            final(self).phases@ == old(self).phases@.push(OfflinePhaseTiming { name, duration }),
            final(self).interpolation == old(self).interpolation,
            final(self).prepare_u == old(self).prepare_u,
            final(self).ua_mask == old(self).ua_mask,
            final(self).mask_prep == old(self).mask_prep,
            final(self).pack_precompute == old(self).pack_precompute,
    {
        self.phases.push(OfflinePhaseTiming { name, duration });
    }

    pub fn add_interpolation(&mut self, name: &'static str, duration: Duration)
        requires
            old(self).interpolation.nanos + duration.nanos <= u128::MAX,
        ensures
            old(self).takes(
                (OfflineEntry { work: Some(OfflineWork::Interpolation), name, duration }),
                *final(self),
            ),
            final(self).phases@ == old(self).phases@.push(OfflinePhaseTiming { name, duration }),
            final(self).interpolation.nanos == old(self).interpolation.nanos + duration.nanos,
            final(self).prepare_u == old(self).prepare_u,
            final(self).ua_mask == old(self).ua_mask,
            final(self).mask_prep == old(self).mask_prep,
            final(self).pack_precompute == old(self).pack_precompute,
    {
        self.interpolation = self.interpolation.plus(duration);
        self.record_phase(name, duration);
    }

    pub fn add_prepare_u(&mut self, name: &'static str, duration: Duration)
        requires
            old(self).prepare_u.nanos + duration.nanos <= u128::MAX,
        ensures
            old(self).takes(
                (OfflineEntry { work: Some(OfflineWork::PrepareU), name, duration }),
                *final(self),
            ),
            final(self).phases@ == old(self).phases@.push(OfflinePhaseTiming { name, duration }),
            final(self).interpolation == old(self).interpolation,
            final(self).prepare_u.nanos == old(self).prepare_u.nanos + duration.nanos,
            final(self).ua_mask == old(self).ua_mask,
            final(self).mask_prep == old(self).mask_prep,
            final(self).pack_precompute == old(self).pack_precompute,
    {
        self.prepare_u = self.prepare_u.plus(duration);
        self.record_phase(name, duration);
    }

    pub fn add_ua_mask(&mut self, name: &'static str, duration: Duration)
        requires
            old(self).ua_mask.nanos + duration.nanos <= u128::MAX,
        ensures
            old(self).takes(
                (OfflineEntry { work: Some(OfflineWork::UaMask), name, duration }),
                *final(self),
            ),
            final(self).phases@ == old(self).phases@.push(OfflinePhaseTiming { name, duration }),
            final(self).interpolation == old(self).interpolation,
            final(self).prepare_u == old(self).prepare_u,
            final(self).ua_mask.nanos == old(self).ua_mask.nanos + duration.nanos,
            final(self).mask_prep == old(self).mask_prep,
            final(self).pack_precompute == old(self).pack_precompute,
    {
        self.ua_mask = self.ua_mask.plus(duration);
        self.record_phase(name, duration);
    }

    pub fn add_mask_prep(&mut self, name: &'static str, duration: Duration)
        requires
            old(self).mask_prep.nanos + duration.nanos <= u128::MAX,
        ensures
            old(self).takes(
                (OfflineEntry { work: Some(OfflineWork::MaskPrep), name, duration }),
                *final(self),
            ),
            final(self).phases@ == old(self).phases@.push(OfflinePhaseTiming { name, duration }),
            final(self).interpolation == old(self).interpolation,
            final(self).prepare_u == old(self).prepare_u,
            final(self).ua_mask == old(self).ua_mask,
            final(self).mask_prep.nanos == old(self).mask_prep.nanos + duration.nanos,
            final(self).pack_precompute == old(self).pack_precompute,
    {
        self.mask_prep = self.mask_prep.plus(duration);
        self.record_phase(name, duration);
    }

    pub fn add_pack_precompute(&mut self, name: &'static str, duration: Duration)
        requires
            old(self).pack_precompute.nanos + duration.nanos <= u128::MAX,
        ensures
            old(self).takes(
                (OfflineEntry { work: Some(OfflineWork::PackPrecompute), name, duration }),
                *final(self),
            ),
            final(self).phases@ == old(self).phases@.push(OfflinePhaseTiming { name, duration }),
            final(self).interpolation == old(self).interpolation,
            final(self).prepare_u == old(self).prepare_u,
            final(self).ua_mask == old(self).ua_mask,
            final(self).mask_prep == old(self).mask_prep,
            final(self).pack_precompute.nanos == old(self).pack_precompute.nanos + duration.nanos,
    {
        self.pack_precompute = self.pack_precompute.plus(duration);
        self.record_phase(name, duration);
    }
}

/// A report lists its entries in order, one phase for each, and every kind of work has the
/// time of the entries that count for it.
pub proof fn law_offline_report_lists_entries(
    reports: Seq<OfflineTimings>,
    entries: Seq<OfflineEntry>,
)
    requires
        OfflineTimings::is_history(reports, entries),
    ensures
        reports.last().phases@.len() == entries.len(),
        forall|i: int|
            0 <= i < entries.len() ==> {
                &&& (#[trigger] reports.last().phases@[i]).name@ == entries[i].name@
                &&& reports.last().phases@[i].duration == entries[i].duration
            },
        forall|work: OfflineWork|
            (#[trigger] reports.last().bucket(work)).nanos == offline_work_sum(entries, work),
        offline_sum(reports.last().phases@) == offline_entry_sum(entries),
    decreases entries.len(),
{
    if entries.len() > 0 {
        let n = entries.len() as int;
        let fewer = entries.drop_last();
        let earlier = reports.drop_last();
        assert forall|i: int| 0 <= i < fewer.len() implies (#[trigger] earlier[i]).takes(
            fewer[i],
            earlier[i + 1],
        ) by {
            assert(reports[i].takes(entries[i], reports[i + 1]));
        }
        law_offline_report_lists_entries(earlier, fewer);
        let before = reports[n - 1];
        let after = reports[n];
        assert(before.takes(entries[n - 1], after));
        assert(after.phases@.drop_last() =~= before.phases@);
        assert(earlier.last() == before);
        assert(reports.last() == after);
        assert forall|i: int| 0 <= i < n implies {
            &&& (#[trigger] after.phases@[i]).name@ == entries[i].name@
            &&& after.phases@[i].duration == entries[i].duration
        } by {
            if i < n - 1 {
                assert(after.phases@[i] == before.phases@[i]);
                assert(fewer[i] == entries[i]);
            }
        }
    }
}

proof fn lemma_offline_takes_adds(before: OfflineTimings, entry: OfflineEntry, after: OfflineTimings)
    requires
        before.takes(entry, after),
        entry.work is Some,
    ensures
        after.bucket_sum() == before.bucket_sum() + entry.duration.nanos,
{
    assert(after.bucket(OfflineWork::Interpolation).nanos == after.interpolation.nanos);
    assert(before.bucket(OfflineWork::Interpolation).nanos == before.interpolation.nanos);
    assert(after.bucket(OfflineWork::PrepareU).nanos == after.prepare_u.nanos);
    assert(before.bucket(OfflineWork::PrepareU).nanos == before.prepare_u.nanos);
    assert(after.bucket(OfflineWork::UaMask).nanos == after.ua_mask.nanos);
    assert(before.bucket(OfflineWork::UaMask).nanos == before.ua_mask.nanos);
    assert(after.bucket(OfflineWork::MaskPrep).nanos == after.mask_prep.nanos);
    assert(before.bucket(OfflineWork::MaskPrep).nanos == before.mask_prep.nanos);
    assert(after.bucket(OfflineWork::PackPrecompute).nanos == after.pack_precompute.nanos);
    assert(before.bucket(OfflineWork::PackPrecompute).nanos == before.pack_precompute.nanos);
    if let Some(work) = entry.work {
        assert(after.bucket(work).nanos == before.bucket(work).nanos + entry.duration.nanos);
        match work {
            OfflineWork::Interpolation => {},
            OfflineWork::PrepareU => {},
            OfflineWork::UaMask => {},
            OfflineWork::MaskPrep => {},
            OfflineWork::PackPrecompute => {},
        }
    }
}

/// Entries that all count for some kind of work are counted once: the total, the time of
/// all entries, and the time of all kinds of work are the same. Without entries it is zero.
pub proof fn law_offline_total_counts_once(
    reports: Seq<OfflineTimings>,
    entries: Seq<OfflineEntry>,
)
    requires
        OfflineTimings::is_history(reports, entries),
        forall|i: int| 0 <= i < entries.len() ==> (#[trigger] entries[i]).work is Some,
    ensures
        reports.last().spec_total() == offline_entry_sum(entries),
        reports.last().bucket_sum() == offline_entry_sum(entries),
        entries.len() == 0 ==> reports.last().spec_total() == 0,
    decreases entries.len(),
{
    law_offline_report_lists_entries(reports, entries);
    let r = reports.last();
    assert(r.bucket(OfflineWork::Interpolation).nanos == r.interpolation.nanos);
    assert(r.bucket(OfflineWork::PrepareU).nanos == r.prepare_u.nanos);
    assert(r.bucket(OfflineWork::UaMask).nanos == r.ua_mask.nanos);
    assert(r.bucket(OfflineWork::MaskPrep).nanos == r.mask_prep.nanos);
    assert(r.bucket(OfflineWork::PackPrecompute).nanos == r.pack_precompute.nanos);
    if entries.len() > 0 {
        let n = entries.len() as int;
        let fewer = entries.drop_last();
        let earlier = reports.drop_last();
        assert forall|i: int| 0 <= i < fewer.len() implies (#[trigger] earlier[i]).takes(
            fewer[i],
            earlier[i + 1],
        ) by {
            assert(reports[i].takes(entries[i], reports[i + 1]));
        }
        assert forall|i: int| 0 <= i < fewer.len() implies (#[trigger] fewer[i]).work is Some by {
            assert(entries[i].work is Some);
        }
        law_offline_total_counts_once(earlier, fewer);
        let before = reports[n - 1];
        assert(earlier.last() == before);
        assert(before.takes(entries[n - 1], r));
        lemma_offline_takes_adds(before, entries[n - 1], r);
    } else {
        assert(r.is_blank());
    }
}

/// Kinds of online work.
#[derive(Clone, Copy, Debug, PartialEq, Eq, Structural)]
pub enum OnlineWork {
    KeyPrecompute,
    PrepareDb,
    MaskProduct,
    BodyProduct,
    MaskPrep,
    PackPrecompute,
    Pack,
    Decompose,
    ReducePrecompute,
    Reduce,
}

/// One entry of an online report: a phase, and the kind of work that it counts for, if any.
#[derive(Clone, Copy, Debug)]
pub struct OnlineEntry {
    pub work: Option<OnlineWork>,
    pub name: &'static str,
    pub duration: Duration,
}

/// Time of the entries that count for a kind of work.
pub open spec fn online_work_sum(entries: Seq<OnlineEntry>, work: OnlineWork) -> int
    decreases entries.len(),
{
    if entries.len() == 0 {
        0
    } else {
        online_work_sum(entries.drop_last(), work) + (if entries.last().work == Some(work) {
            entries.last().duration.nanos as int
        } else {
            0
        })
    }
}

/// Time of all entries.
pub open spec fn online_entry_sum(entries: Seq<OnlineEntry>) -> int
    decreases entries.len(),
{
    if entries.len() == 0 {
        0
    } else {
        online_entry_sum(entries.drop_last()) + entries.last().duration.nanos
    }
}

/// Timing report of the online work.
#[derive(Clone, Debug)]
pub struct OnlineTimings {
    pub phases: Vec<OnlinePhaseTiming>,
    pub key_precompute: Duration,
    pub prepare_db: Duration,
    pub mask_product: Duration,
    pub body_product: Duration,
    pub mask_prep: Duration,
    pub pack_precompute: Duration,
    pub pack: Duration,
    pub decompose: Duration,
    pub reduce_precompute: Duration,
    pub reduce: Duration,
}

impl Default for OnlineTimings {
    fn default() -> (r: Self)
        ensures
            r.is_blank(),
            r.phases@.len() == 0,
            r.key_precompute.nanos == 0,
            r.prepare_db.nanos == 0,
            r.mask_product.nanos == 0,
            r.body_product.nanos == 0,
            r.mask_prep.nanos == 0,
            r.pack_precompute.nanos == 0,
            r.pack.nanos == 0,
            r.decompose.nanos == 0,
            r.reduce_precompute.nanos == 0,
            r.reduce.nanos == 0,
    {
        OnlineTimings {
            phases: Vec::new(),
            key_precompute: Duration::from_nanos(0),
            prepare_db: Duration::from_nanos(0),
            mask_product: Duration::from_nanos(0),
            body_product: Duration::from_nanos(0),
            mask_prep: Duration::from_nanos(0),
            pack_precompute: Duration::from_nanos(0),
            pack: Duration::from_nanos(0),
            decompose: Duration::from_nanos(0),
            reduce_precompute: Duration::from_nanos(0),
            reduce: Duration::from_nanos(0),
        }
    }
}

impl OnlineTimings {
    /// Time of one kind of work.
    pub open spec fn bucket(self, work: OnlineWork) -> Duration {
        match work {
            OnlineWork::KeyPrecompute => self.key_precompute,
            OnlineWork::PrepareDb => self.prepare_db,
            OnlineWork::MaskProduct => self.mask_product,
            OnlineWork::BodyProduct => self.body_product,
            OnlineWork::MaskPrep => self.mask_prep,
            OnlineWork::PackPrecompute => self.pack_precompute,
            OnlineWork::Pack => self.pack,
            OnlineWork::Decompose => self.decompose,
            OnlineWork::ReducePrecompute => self.reduce_precompute,
            OnlineWork::Reduce => self.reduce,
        }
    }

    /// A report without entries.
    pub open spec fn is_blank(self) -> bool {
        self.phases@.len() == 0 && forall|work: OnlineWork| (#[trigger] self.bucket(work)).nanos == 0
    }

    /// `after` is this report with one more entry: its phase comes last, and its time is
    /// added to the kind of work that it counts for.
    pub open spec fn takes(self, entry: OnlineEntry, after: OnlineTimings) -> bool {
        &&& after.phases@ == self.phases@.push(
            OnlinePhaseTiming { name: entry.name, duration: entry.duration },
        )
        &&& forall|work: OnlineWork|
            (#[trigger] after.bucket(work)).nanos == self.bucket(work).nanos + (if entry.work
                == Some(work) {
                entry.duration.nanos as int
            } else {
                0
            })
    }

    /// The reports are those of a sequence of entries, from a report without entries on.
    pub open spec fn is_history(reports: Seq<OnlineTimings>, entries: Seq<OnlineEntry>) -> bool {
        &&& reports.len() == entries.len() + 1
        &&& reports[0].is_blank()
        &&& forall|i: int|
            0 <= i < entries.len() ==> (#[trigger] reports[i]).takes(entries[i], reports[i + 1])
    }

    /// Time by kind of work, all kinds together.
    pub open spec fn bucket_sum(self) -> int {
        self.key_precompute.nanos + self.prepare_db.nanos + self.mask_product.nanos
            + self.body_product.nanos + self.mask_prep.nanos + self.pack_precompute.nanos
            + self.pack.nanos + self.decompose.nanos + self.reduce_precompute.nanos
            + self.reduce.nanos
    }

    pub open spec fn spec_total(self) -> int {
        if self.phases@.len() == 0 {
            self.bucket_sum()
        } else {
            online_sum(self.phases@)
        }
    }

    /// The phases in the order in which they were measured.
    pub fn phases(&self) -> (r: &[OnlinePhaseTiming])
        ensures
            r@ == self.phases@,
    {
        self.phases.as_slice()
    }

    /// Time of all phases, or by kind of work where no phase was recorded.
    pub fn total(&self) -> (r: Duration)
        requires
            self.spec_total() <= u128::MAX,
        ensures
            r.nanos == self.spec_total(),
    {
        if self.phases.len() == 0 {
            return Duration {
                nanos: self.key_precompute.nanos + self.prepare_db.nanos + self.mask_product.nanos
                    + self.body_product.nanos + self.mask_prep.nanos + self.pack_precompute.nanos
                    + self.pack.nanos + self.decompose.nanos + self.reduce_precompute.nanos
                    + self.reduce.nanos,
            };
        }
        let mut sum: u128 = 0;
        let mut i: usize = 0;
        assert(self.phases@.take(0) =~= Seq::<OnlinePhaseTiming>::empty());
        while i < self.phases.len()
            invariant
                i <= self.phases@.len(),
                sum == online_sum(self.phases@.take(i as int)),
                online_sum(self.phases@) <= u128::MAX,
            decreases self.phases@.len() - i,
        {
            proof {
                lemma_online_prefix(self.phases@, i as int);
                lemma_online_prefix(self.phases@, i + 1);
            }
            sum = sum + self.phases[i].duration.nanos;
            i = i + 1;
        }
        assert(self.phases@.take(self.phases@.len() as int) =~= self.phases@);
        Duration { nanos: sum }
    }

    /// Appends a phase.
    pub fn record_phase(&mut self, name: &'static str, duration: Duration)
        ensures
            old(self).takes((OnlineEntry { work: None, name, duration }), *final(self)),
            final(self).phases@ == old(self).phases@.push(OnlinePhaseTiming { name, duration }),
            final(self).key_precompute == old(self).key_precompute,
            final(self).prepare_db == old(self).prepare_db,
            final(self).mask_product == old(self).mask_product,
            final(self).body_product == old(self).body_product,
            final(self).mask_prep == old(self).mask_prep,
            final(self).pack_precompute == old(self).pack_precompute,
            final(self).pack == old(self).pack,
            final(self).decompose == old(self).decompose,
            final(self).reduce_precompute == old(self).reduce_precompute,
            final(self).reduce == old(self).reduce,
    {
        self.phases.push(OnlinePhaseTiming { name, duration });
    }

    pub fn add_key_precompute(&mut self, name: &'static str, duration: Duration)
        requires
            old(self).key_precompute.nanos + duration.nanos <= u128::MAX,
        ensures
            old(self).takes(
                (OnlineEntry { work: Some(OnlineWork::KeyPrecompute), name, duration }),
                *final(self),
            ),
            final(self).phases@ == old(self).phases@.push(OnlinePhaseTiming { name, duration }),
            final(self).key_precompute.nanos == old(self).key_precompute.nanos + duration.nanos,
            final(self).prepare_db == old(self).prepare_db,
            final(self).mask_product == old(self).mask_product,
            final(self).body_product == old(self).body_product,
            final(self).mask_prep == old(self).mask_prep,
            final(self).pack_precompute == old(self).pack_precompute,
            final(self).pack == old(self).pack,
            final(self).decompose == old(self).decompose,
            final(self).reduce_precompute == old(self).reduce_precompute,
            final(self).reduce == old(self).reduce,
    {
        self.key_precompute = self.key_precompute.plus(duration);
        self.record_phase(name, duration);
    }

    pub fn add_prepare_db(&mut self, name: &'static str, duration: Duration)
        requires
            old(self).prepare_db.nanos + duration.nanos <= u128::MAX,
        ensures
            old(self).takes(
                (OnlineEntry { work: Some(OnlineWork::PrepareDb), name, duration }),
                *final(self),
            ),
            final(self).phases@ == old(self).phases@.push(OnlinePhaseTiming { name, duration }),
            final(self).key_precompute == old(self).key_precompute,
            final(self).prepare_db.nanos == old(self).prepare_db.nanos + duration.nanos,
            final(self).mask_product == old(self).mask_product,
            final(self).body_product == old(self).body_product,
            final(self).mask_prep == old(self).mask_prep,
            final(self).pack_precompute == old(self).pack_precompute,
            final(self).pack == old(self).pack,
            final(self).decompose == old(self).decompose,
            final(self).reduce_precompute == old(self).reduce_precompute,
            final(self).reduce == old(self).reduce,
    {
        self.prepare_db = self.prepare_db.plus(duration);
        self.record_phase(name, duration);
    }

    pub fn add_mask_product(&mut self, name: &'static str, duration: Duration)
        requires
            old(self).mask_product.nanos + duration.nanos <= u128::MAX,
        ensures
            old(self).takes(
                (OnlineEntry { work: Some(OnlineWork::MaskProduct), name, duration }),
                *final(self),
            ),
            final(self).phases@ == old(self).phases@.push(OnlinePhaseTiming { name, duration }),
            final(self).key_precompute == old(self).key_precompute,
            final(self).prepare_db == old(self).prepare_db,
            final(self).mask_product.nanos == old(self).mask_product.nanos + duration.nanos,
            final(self).body_product == old(self).body_product,
            final(self).mask_prep == old(self).mask_prep,
            final(self).pack_precompute == old(self).pack_precompute,
            final(self).pack == old(self).pack,
            final(self).decompose == old(self).decompose,
            final(self).reduce_precompute == old(self).reduce_precompute,
            final(self).reduce == old(self).reduce,
    {
        self.mask_product = self.mask_product.plus(duration);
        self.record_phase(name, duration);
    }

    pub fn add_body_product(&mut self, name: &'static str, duration: Duration)
        requires
            old(self).body_product.nanos + duration.nanos <= u128::MAX,
        ensures
            old(self).takes(
                (OnlineEntry { work: Some(OnlineWork::BodyProduct), name, duration }),
                *final(self),
            ),
            final(self).phases@ == old(self).phases@.push(OnlinePhaseTiming { name, duration }),
            final(self).key_precompute == old(self).key_precompute,
            final(self).prepare_db == old(self).prepare_db,
            final(self).mask_product == old(self).mask_product,
            final(self).body_product.nanos == old(self).body_product.nanos + duration.nanos,
            final(self).mask_prep == old(self).mask_prep,
            final(self).pack_precompute == old(self).pack_precompute,
            final(self).pack == old(self).pack,
            final(self).decompose == old(self).decompose,
            final(self).reduce_precompute == old(self).reduce_precompute,
            final(self).reduce == old(self).reduce,
    {
        self.body_product = self.body_product.plus(duration);
        self.record_phase(name, duration);
    }

    pub fn add_mask_prep(&mut self, name: &'static str, duration: Duration)
        requires
            old(self).mask_prep.nanos + duration.nanos <= u128::MAX,
        ensures
            old(self).takes(
                (OnlineEntry { work: Some(OnlineWork::MaskPrep), name, duration }),
                *final(self),
            ),
            final(self).phases@ == old(self).phases@.push(OnlinePhaseTiming { name, duration }),
            final(self).key_precompute == old(self).key_precompute,
            final(self).prepare_db == old(self).prepare_db,
            final(self).mask_product == old(self).mask_product,
            final(self).body_product == old(self).body_product,
            final(self).mask_prep.nanos == old(self).mask_prep.nanos + duration.nanos,
            final(self).pack_precompute == old(self).pack_precompute,
            final(self).pack == old(self).pack,
            final(self).decompose == old(self).decompose,
            final(self).reduce_precompute == old(self).reduce_precompute,
            final(self).reduce == old(self).reduce,
    {
        self.mask_prep = self.mask_prep.plus(duration);
        self.record_phase(name, duration);
    }

    pub fn add_pack_precompute(&mut self, name: &'static str, duration: Duration)
        requires
            old(self).pack_precompute.nanos + duration.nanos <= u128::MAX,
        ensures
            old(self).takes(
                (OnlineEntry { work: Some(OnlineWork::PackPrecompute), name, duration }),
                *final(self),
            ),
            final(self).phases@ == old(self).phases@.push(OnlinePhaseTiming { name, duration }),
            final(self).key_precompute == old(self).key_precompute,
            final(self).prepare_db == old(self).prepare_db,
            final(self).mask_product == old(self).mask_product,
            final(self).body_product == old(self).body_product,
            final(self).mask_prep == old(self).mask_prep,
            final(self).pack_precompute.nanos == old(self).pack_precompute.nanos + duration.nanos,
            final(self).pack == old(self).pack,
            final(self).decompose == old(self).decompose,
            final(self).reduce_precompute == old(self).reduce_precompute,
            final(self).reduce == old(self).reduce,
    {
        self.pack_precompute = self.pack_precompute.plus(duration);
        self.record_phase(name, duration);
    }

    pub fn add_pack(&mut self, name: &'static str, duration: Duration)
        requires
            old(self).pack.nanos + duration.nanos <= u128::MAX,
        ensures
            old(self).takes(
                (OnlineEntry { work: Some(OnlineWork::Pack), name, duration }),
                *final(self),
            ),
            final(self).phases@ == old(self).phases@.push(OnlinePhaseTiming { name, duration }),
            final(self).key_precompute == old(self).key_precompute,
            final(self).prepare_db == old(self).prepare_db,
            final(self).mask_product == old(self).mask_product,
            final(self).body_product == old(self).body_product,
            final(self).mask_prep == old(self).mask_prep,
            final(self).pack_precompute == old(self).pack_precompute,
            final(self).pack.nanos == old(self).pack.nanos + duration.nanos,
            final(self).decompose == old(self).decompose,
            final(self).reduce_precompute == old(self).reduce_precompute,
            final(self).reduce == old(self).reduce,
    {
        self.pack = self.pack.plus(duration);
        self.record_phase(name, duration);
    }

    pub fn add_decompose(&mut self, name: &'static str, duration: Duration)
        requires
            old(self).decompose.nanos + duration.nanos <= u128::MAX,
        ensures
            old(self).takes(
                (OnlineEntry { work: Some(OnlineWork::Decompose), name, duration }),
                *final(self),
            ),
            final(self).phases@ == old(self).phases@.push(OnlinePhaseTiming { name, duration }),
            final(self).key_precompute == old(self).key_precompute,
            final(self).prepare_db == old(self).prepare_db,
            final(self).mask_product == old(self).mask_product,
            final(self).body_product == old(self).body_product,
            final(self).mask_prep == old(self).mask_prep,
            final(self).pack_precompute == old(self).pack_precompute,
            final(self).pack == old(self).pack,
            final(self).decompose.nanos == old(self).decompose.nanos + duration.nanos,
            final(self).reduce_precompute == old(self).reduce_precompute,
            final(self).reduce == old(self).reduce,
    {
        self.decompose = self.decompose.plus(duration);
        self.record_phase(name, duration);
    }

    pub fn add_reduce_precompute(&mut self, name: &'static str, duration: Duration)
        requires
            old(self).reduce_precompute.nanos + duration.nanos <= u128::MAX,
        ensures
            old(self).takes(
                (OnlineEntry { work: Some(OnlineWork::ReducePrecompute), name, duration }),
                *final(self),
            ),
            final(self).phases@ == old(self).phases@.push(OnlinePhaseTiming { name, duration }),
            final(self).key_precompute == old(self).key_precompute,
            final(self).prepare_db == old(self).prepare_db,
            final(self).mask_product == old(self).mask_product,
            final(self).body_product == old(self).body_product,
            final(self).mask_prep == old(self).mask_prep,
            final(self).pack_precompute == old(self).pack_precompute,
            final(self).pack == old(self).pack,
            final(self).decompose == old(self).decompose,
            final(self).reduce_precompute.nanos == old(self).reduce_precompute.nanos + duration.nanos,
            final(self).reduce == old(self).reduce,
    {
        self.reduce_precompute = self.reduce_precompute.plus(duration);
        self.record_phase(name, duration);
    }

    pub fn add_reduce(&mut self, name: &'static str, duration: Duration)
        requires
            old(self).reduce.nanos + duration.nanos <= u128::MAX,
        ensures
            old(self).takes(
                (OnlineEntry { work: Some(OnlineWork::Reduce), name, duration }),
                *final(self),
            ),
            final(self).phases@ == old(self).phases@.push(OnlinePhaseTiming { name, duration }),
            final(self).key_precompute == old(self).key_precompute,
            final(self).prepare_db == old(self).prepare_db,
            final(self).mask_product == old(self).mask_product,
            final(self).body_product == old(self).body_product,
            final(self).mask_prep == old(self).mask_prep,
            final(self).pack_precompute == old(self).pack_precompute,
            final(self).pack == old(self).pack,
            final(self).decompose == old(self).decompose,
            final(self).reduce_precompute == old(self).reduce_precompute,
            final(self).reduce.nanos == old(self).reduce.nanos + duration.nanos,
    {
        self.reduce = self.reduce.plus(duration);
        self.record_phase(name, duration);
    }
}

/// A report lists its entries in order, one phase for each, and every kind of work has the
/// time of the entries that count for it.
pub proof fn law_online_report_lists_entries(
    reports: Seq<OnlineTimings>,
    entries: Seq<OnlineEntry>,
)
    requires
        OnlineTimings::is_history(reports, entries),
    ensures
        reports.last().phases@.len() == entries.len(),
        forall|i: int|
            0 <= i < entries.len() ==> {
                &&& (#[trigger] reports.last().phases@[i]).name@ == entries[i].name@
                &&& reports.last().phases@[i].duration == entries[i].duration
            },
        forall|work: OnlineWork|
            (#[trigger] reports.last().bucket(work)).nanos == online_work_sum(entries, work),
        online_sum(reports.last().phases@) == online_entry_sum(entries),
    decreases entries.len(),
{
    if entries.len() > 0 {
        let n = entries.len() as int;
        let fewer = entries.drop_last();
        let earlier = reports.drop_last();
        assert forall|i: int| 0 <= i < fewer.len() implies (#[trigger] earlier[i]).takes(
            fewer[i],
            earlier[i + 1],
        ) by {
            assert(reports[i].takes(entries[i], reports[i + 1]));
        }
        law_online_report_lists_entries(earlier, fewer);
        let before = reports[n - 1];
        let after = reports[n];
        assert(before.takes(entries[n - 1], after));
        assert(after.phases@.drop_last() =~= before.phases@);
        assert(earlier.last() == before);
        assert(reports.last() == after);
        assert forall|i: int| 0 <= i < n implies {
            &&& (#[trigger] after.phases@[i]).name@ == entries[i].name@
            &&& after.phases@[i].duration == entries[i].duration
        } by {
            if i < n - 1 {
                assert(after.phases@[i] == before.phases@[i]);
                assert(fewer[i] == entries[i]);
            }
        }
    }
}

proof fn lemma_online_takes_adds(before: OnlineTimings, entry: OnlineEntry, after: OnlineTimings)
    requires
        before.takes(entry, after),
        entry.work is Some,
    ensures
        after.bucket_sum() == before.bucket_sum() + entry.duration.nanos,
{
    assert(after.bucket(OnlineWork::KeyPrecompute).nanos == after.key_precompute.nanos);
    assert(before.bucket(OnlineWork::KeyPrecompute).nanos == before.key_precompute.nanos);
    assert(after.bucket(OnlineWork::PrepareDb).nanos == after.prepare_db.nanos);
    assert(before.bucket(OnlineWork::PrepareDb).nanos == before.prepare_db.nanos);
    assert(after.bucket(OnlineWork::MaskProduct).nanos == after.mask_product.nanos);
    assert(before.bucket(OnlineWork::MaskProduct).nanos == before.mask_product.nanos);
    assert(after.bucket(OnlineWork::BodyProduct).nanos == after.body_product.nanos);
    assert(before.bucket(OnlineWork::BodyProduct).nanos == before.body_product.nanos);
    assert(after.bucket(OnlineWork::MaskPrep).nanos == after.mask_prep.nanos);
    assert(before.bucket(OnlineWork::MaskPrep).nanos == before.mask_prep.nanos);
    assert(after.bucket(OnlineWork::PackPrecompute).nanos == after.pack_precompute.nanos);
    assert(before.bucket(OnlineWork::PackPrecompute).nanos == before.pack_precompute.nanos);
    assert(after.bucket(OnlineWork::Pack).nanos == after.pack.nanos);
    assert(before.bucket(OnlineWork::Pack).nanos == before.pack.nanos);
    assert(after.bucket(OnlineWork::Decompose).nanos == after.decompose.nanos);
    assert(before.bucket(OnlineWork::Decompose).nanos == before.decompose.nanos);
    assert(after.bucket(OnlineWork::ReducePrecompute).nanos == after.reduce_precompute.nanos);
    assert(before.bucket(OnlineWork::ReducePrecompute).nanos == before.reduce_precompute.nanos);
    assert(after.bucket(OnlineWork::Reduce).nanos == after.reduce.nanos);
    assert(before.bucket(OnlineWork::Reduce).nanos == before.reduce.nanos);
    if let Some(work) = entry.work {
        assert(after.bucket(work).nanos == before.bucket(work).nanos + entry.duration.nanos);
        match work {
            OnlineWork::KeyPrecompute => {},
            OnlineWork::PrepareDb => {},
            OnlineWork::MaskProduct => {},
            OnlineWork::BodyProduct => {},
            OnlineWork::MaskPrep => {},
            OnlineWork::PackPrecompute => {},
            OnlineWork::Pack => {},
            OnlineWork::Decompose => {},
            OnlineWork::ReducePrecompute => {},
            OnlineWork::Reduce => {},
        }
    }
}

/// Entries that all count for some kind of work are counted once: the total, the time of
/// all entries, and the time of all kinds of work are the same. Without entries it is zero.
pub proof fn law_online_total_counts_once(
    reports: Seq<OnlineTimings>,
    entries: Seq<OnlineEntry>,
)
    requires
        OnlineTimings::is_history(reports, entries),
        forall|i: int| 0 <= i < entries.len() ==> (#[trigger] entries[i]).work is Some,
    ensures
        reports.last().spec_total() == online_entry_sum(entries),
        reports.last().bucket_sum() == online_entry_sum(entries),
        entries.len() == 0 ==> reports.last().spec_total() == 0,
    decreases entries.len(),
{
    law_online_report_lists_entries(reports, entries);
    let r = reports.last();
    assert(r.bucket(OnlineWork::KeyPrecompute).nanos == r.key_precompute.nanos);
    assert(r.bucket(OnlineWork::PrepareDb).nanos == r.prepare_db.nanos);
    assert(r.bucket(OnlineWork::MaskProduct).nanos == r.mask_product.nanos);
    assert(r.bucket(OnlineWork::BodyProduct).nanos == r.body_product.nanos);
    assert(r.bucket(OnlineWork::MaskPrep).nanos == r.mask_prep.nanos);
    assert(r.bucket(OnlineWork::PackPrecompute).nanos == r.pack_precompute.nanos);
    assert(r.bucket(OnlineWork::Pack).nanos == r.pack.nanos);
    assert(r.bucket(OnlineWork::Decompose).nanos == r.decompose.nanos);
    assert(r.bucket(OnlineWork::ReducePrecompute).nanos == r.reduce_precompute.nanos);
    assert(r.bucket(OnlineWork::Reduce).nanos == r.reduce.nanos);
    if entries.len() > 0 {
        let n = entries.len() as int;
        let fewer = entries.drop_last();
        let earlier = reports.drop_last();
        assert forall|i: int| 0 <= i < fewer.len() implies (#[trigger] earlier[i]).takes(
            fewer[i],
            earlier[i + 1],
        ) by {
            assert(reports[i].takes(entries[i], reports[i + 1]));
        }
        assert forall|i: int| 0 <= i < fewer.len() implies (#[trigger] fewer[i]).work is Some by {
            assert(entries[i].work is Some);
        }
        law_online_total_counts_once(earlier, fewer);
        let before = reports[n - 1];
        assert(earlier.last() == before);
        assert(before.takes(entries[n - 1], r));
        lemma_online_takes_adds(before, entries[n - 1], r);
    } else {
        assert(r.is_blank());
    }
}

/// Position of the first phase with the given name, or the number of phases.
pub open spec fn first_named(phases: Seq<OnlinePhaseTiming>, name: Seq<char>) -> int
    decreases phases.len(),
{
    if phases.len() == 0 {
        0
    } else {
        let i = first_named(phases.drop_last(), name);
        if i < phases.len() - 1 {
            i
        } else if phases.last().name@ == name {
            phases.len() - 1
        } else {
            phases.len() as int
        }
    }
}

/// The phases with `p` added to the first phase of its name, or appended.
pub open spec fn merged(phases: Seq<OnlinePhaseTiming>, p: OnlinePhaseTiming) -> Seq<
    OnlinePhaseTiming,
> {
    let i = first_named(phases, p.name@);
    if i < phases.len() {
        phases.update(
            i,
            OnlinePhaseTiming {
                name: phases[i].name,
                duration: Duration {
                    nanos: (phases[i].duration.nanos + p.duration.nanos) as u128,
                },
            },
        )
    } else {
        phases.push(p)
    }
}

/// The phases with all of `others` merged in, in order.
pub open spec fn merged_all(
    phases: Seq<OnlinePhaseTiming>,
    others: Seq<OnlinePhaseTiming>,
) -> Seq<OnlinePhaseTiming>
    decreases others.len(),
{
    if others.len() == 0 {
        phases
    } else {
        merged(merged_all(phases, others.drop_last()), others.last())
    }
}

proof fn lemma_first_named(phases: Seq<OnlinePhaseTiming>, name: Seq<char>)
    ensures
        0 <= first_named(phases, name) <= phases.len(),
        first_named(phases, name) < phases.len() ==> phases[first_named(phases, name)].name@
            == name,
        forall|j: int|
            0 <= j < first_named(phases, name) ==> (#[trigger] phases[j]).name@ != name,
    decreases phases.len(),
{
    if phases.len() > 0 {
        lemma_first_named(phases.drop_last(), name);
        let i = first_named(phases.drop_last(), name);
        assert forall|j: int| 0 <= j < first_named(phases, name) implies (
        #[trigger] phases[j]).name@ != name by {
            if j < phases.len() - 1 {
                assert(phases.drop_last()[j] == phases[j]);
            }
        }
    }
}

/// The first phase of a name is where no earlier phase has it.
proof fn lemma_first_named_at(phases: Seq<OnlinePhaseTiming>, name: Seq<char>, i: int)
    requires
        0 <= i <= phases.len(),
        i < phases.len() ==> phases[i].name@ == name,
        forall|j: int| 0 <= j < i ==> (#[trigger] phases[j]).name@ != name,
    ensures
        first_named(phases, name) == i,
{
    lemma_first_named(phases, name);
}

/// Replacing a phase changes the sum by the difference.
proof fn lemma_sum_update(phases: Seq<OnlinePhaseTiming>, i: int, p: OnlinePhaseTiming)
    requires
        0 <= i < phases.len(),
    ensures
        online_sum(phases.update(i, p)) == online_sum(phases) - phases[i].duration.nanos
            + p.duration.nanos,
    decreases phases.len(),
{
    let up = phases.update(i, p);
    if i == phases.len() - 1 {
        assert(up.drop_last() =~= phases.drop_last());
    } else {
        assert(up.drop_last() =~= phases.drop_last().update(i, p));
        lemma_sum_update(phases.drop_last(), i, p);
    }
}

proof fn lemma_phase_bound(phases: Seq<OnlinePhaseTiming>, i: int)
    requires
        0 <= i < phases.len(),
    ensures
        phases[i].duration.nanos <= online_sum(phases),
{
    lemma_online_prefix(phases, i);
    lemma_online_prefix(phases, i + 1);
}

/// Merging reports adds up their time.
pub proof fn law_merging_adds_time(
    phases: Seq<OnlinePhaseTiming>,
    others: Seq<OnlinePhaseTiming>,
)
    requires
        online_sum(phases) + online_sum(others) <= u128::MAX,
    ensures
        online_sum(merged_all(phases, others)) == online_sum(phases) + online_sum(others),
    decreases others.len(),
{
    if others.len() > 0 {
        law_merging_adds_time(phases, others.drop_last());
        let so_far = merged_all(phases, others.drop_last());
        let p = others.last();
        lemma_first_named(so_far, p.name@);
        let i = first_named(so_far, p.name@);
        if i < so_far.len() {
            lemma_phase_bound(so_far, i);
            let q = OnlinePhaseTiming {
                name: so_far[i].name,
                duration: Duration {
                    nanos: (so_far[i].duration.nanos + p.duration.nanos) as u128,
                },
            };
            lemma_sum_update(so_far, i, q);
        } else {
            assert(so_far.push(p).drop_last() =~= so_far);
        }
    }
}

/// Time of the phases of one name.
pub open spec fn named_sum(phases: Seq<OnlinePhaseTiming>, name: Seq<char>) -> int
    decreases phases.len(),
{
    if phases.len() == 0 {
        0
    } else {
        named_sum(phases.drop_last(), name) + (if phases.last().name@ == name {
            phases.last().duration.nanos as int
        } else {
            0
        })
    }
}

proof fn lemma_named_update(
    phases: Seq<OnlinePhaseTiming>,
    i: int,
    p: OnlinePhaseTiming,
    name: Seq<char>,
)
    requires
        0 <= i < phases.len(),
        p.name@ == phases[i].name@,
    ensures
        named_sum(phases.update(i, p), name) == named_sum(phases, name) + (if p.name@ == name {
            p.duration.nanos - phases[i].duration.nanos
        } else {
            0
        }),
    decreases phases.len(),
{
    let up = phases.update(i, p);
    if i == phases.len() - 1 {
        assert(up.drop_last() =~= phases.drop_last());
    } else {
        assert(up.drop_last() =~= phases.drop_last().update(i, p));
        lemma_named_update(phases.drop_last(), i, p, name);
    }
}

/// Merging reports adds up their time name by name.
pub proof fn law_merging_adds_by_name(
    phases: Seq<OnlinePhaseTiming>,
    others: Seq<OnlinePhaseTiming>,
    name: Seq<char>,
)
    requires
        online_sum(phases) + online_sum(others) <= u128::MAX,
    ensures
        named_sum(merged_all(phases, others), name) == named_sum(phases, name) + named_sum(
            others,
            name,
        ),
    decreases others.len(),
{
    if others.len() > 0 {
        law_merging_adds_by_name(phases, others.drop_last(), name);
        law_merging_adds_time(phases, others.drop_last());
        let so_far = merged_all(phases, others.drop_last());
        let p = others.last();
        lemma_first_named(so_far, p.name@);
        let i = first_named(so_far, p.name@);
        if i < so_far.len() {
            lemma_phase_bound(so_far, i);
            let q = OnlinePhaseTiming {
                name: so_far[i].name,
                duration: Duration {
                    nanos: (so_far[i].duration.nanos + p.duration.nanos) as u128,
                },
            };
            lemma_named_update(so_far, i, q, name);
        } else {
            assert(so_far.push(p).drop_last() =~= so_far);
        }
    }
}

/// Merging keeps the names of a report first and in order, and appends each name of the
/// other report that is new, once.
pub proof fn law_merging_keeps_order(
    phases: Seq<OnlinePhaseTiming>,
    others: Seq<OnlinePhaseTiming>,
)
    ensures
        ({
            let r = merged_all(phases, others);
            &&& phases.len() <= r.len()
            &&& forall|i: int|
                0 <= i < phases.len() ==> (#[trigger] r[i]).name@ == phases[i].name@
            &&& forall|i: int, j: int|
                phases.len() <= i < r.len() && 0 <= j < i ==> (#[trigger] r[j]).name@ != (
                #[trigger] r[i]).name@
            &&& forall|i: int|
                phases.len() <= i < r.len() ==> exists|k: int|
                    0 <= k < others.len() && (#[trigger] others[k]).name@ == (#[trigger] r[i]).name@
            &&& forall|k: int|
                0 <= k < others.len() ==> exists|i: int|
                    0 <= i < r.len() && (#[trigger] r[i]).name@ == (#[trigger] others[k]).name@
        }),
    decreases others.len(),
{
    let r = merged_all(phases, others);
    if others.len() > 0 {
        let fewer = others.drop_last();
        law_merging_keeps_order(phases, fewer);
        let so_far = merged_all(phases, fewer);
        let p = others.last();
        lemma_first_named(so_far, p.name@);
        let at = first_named(so_far, p.name@);
        assert forall|i: int| 0 <= i < so_far.len() implies (#[trigger] r[i]).name@
            == so_far[i].name@ by {}
        assert forall|i: int| phases.len() <= i < r.len() implies exists|k: int|
            0 <= k < others.len() && (#[trigger] others[k]).name@ == (#[trigger] r[i]).name@ by {
            if i < so_far.len() {
                let k = choose|k: int|
                    0 <= k < fewer.len() && (#[trigger] fewer[k]).name@ == so_far[i].name@;
                assert(others[k].name@ == r[i].name@);
            } else {
                assert(others[others.len() - 1].name@ == r[i].name@);
            }
        }
        assert forall|k: int| 0 <= k < others.len() implies exists|i: int|
            0 <= i < r.len() && (#[trigger] r[i]).name@ == (#[trigger] others[k]).name@ by {
            if k < fewer.len() {
                assert(fewer[k] == others[k]);
                let i = choose|i: int|
                    0 <= i < so_far.len() && (#[trigger] so_far[i]).name@ == fewer[k].name@;
                assert(r[i].name@ == others[k].name@);
            } else {
                assert(r[at].name@ == others[k].name@);
            }
        }
    }
}

impl OnlineTimings {
    /// All time was recorded as phases: without a phase there is no time.
    pub open spec fn recorded(self) -> bool {
        self.phases@.len() == 0 ==> self.bucket_sum() == 0
    }

    /// `after` is this report with another one folded in.
    pub open spec fn accumulates(self, other: OnlineTimings, after: OnlineTimings) -> bool {
        &&& after.phases@ == merged_all(self.phases@, other.phases@)
        &&& forall|work: OnlineWork|
            (#[trigger] after.bucket(work)).nanos == self.bucket(work).nanos + other.bucket(
                work,
            ).nanos
    }
}

/// A report stays recorded whatever is entered or folded in.
pub proof fn law_reports_stay_recorded(before: OnlineTimings, after: OnlineTimings)
    requires
        ({
            ||| before.is_blank() && after == before
            ||| before.recorded() && (exists|entry: OnlineEntry| #[trigger]
                before.takes(entry, after))
            ||| before.recorded() && (exists|other: OnlineTimings|
                other.recorded() && #[trigger] before.accumulates(other, after))
        }),
    ensures
        after.recorded(),
{
    assert(before.bucket(OnlineWork::KeyPrecompute) == before.key_precompute);
    assert(before.bucket(OnlineWork::PrepareDb) == before.prepare_db);
    assert(before.bucket(OnlineWork::MaskProduct) == before.mask_product);
    assert(before.bucket(OnlineWork::BodyProduct) == before.body_product);
    assert(before.bucket(OnlineWork::MaskPrep) == before.mask_prep);
    assert(before.bucket(OnlineWork::PackPrecompute) == before.pack_precompute);
    assert(before.bucket(OnlineWork::Pack) == before.pack);
    assert(before.bucket(OnlineWork::Decompose) == before.decompose);
    assert(before.bucket(OnlineWork::ReducePrecompute) == before.reduce_precompute);
    assert(before.bucket(OnlineWork::Reduce) == before.reduce);
    if !before.is_blank() || after != before {
        if exists|entry: OnlineEntry| #[trigger] before.takes(entry, after) {
            let entry = choose|entry: OnlineEntry| #[trigger] before.takes(entry, after);
            assert(after.phases@.len() > 0);
        } else {
            let other = choose|other: OnlineTimings|
                other.recorded() && #[trigger] before.accumulates(other, after);
            lemma_accumulated_buckets(before, other, after);
            law_merging_keeps_order(before.phases@, other.phases@);
            if after.phases@.len() == 0 && other.phases@.len() > 0 {
                let i = choose|i: int|
                    0 <= i < after.phases@.len() && (#[trigger] after.phases@[i]).name@
                        == other.phases@[0].name@;
                assert(false);
            }
        }
    }
}

proof fn lemma_accumulated_buckets(
    before: OnlineTimings,
    other: OnlineTimings,
    after: OnlineTimings,
)
    requires
        before.accumulates(other, after),
    ensures
        after.bucket_sum() == before.bucket_sum() + other.bucket_sum(),
{
    assert(after.bucket(OnlineWork::KeyPrecompute) == after.key_precompute);
    assert(after.bucket(OnlineWork::PrepareDb) == after.prepare_db);
    assert(after.bucket(OnlineWork::MaskProduct) == after.mask_product);
    assert(after.bucket(OnlineWork::BodyProduct) == after.body_product);
    assert(after.bucket(OnlineWork::MaskPrep) == after.mask_prep);
    assert(after.bucket(OnlineWork::PackPrecompute) == after.pack_precompute);
    assert(after.bucket(OnlineWork::Pack) == after.pack);
    assert(after.bucket(OnlineWork::Decompose) == after.decompose);
    assert(after.bucket(OnlineWork::ReducePrecompute) == after.reduce_precompute);
    assert(after.bucket(OnlineWork::Reduce) == after.reduce);
}

/// Folding reports adds them up: the totals, the time of every name, and the time of every
/// kind of work. Names keep their order, and only new ones are appended.
pub proof fn law_accumulating_adds_reports(
    before: OnlineTimings,
    other: OnlineTimings,
    after: OnlineTimings,
    name: Seq<char>,
)
    requires
        before.recorded(),
        other.recorded(),
        before.accumulates(other, after),
        online_sum(before.phases@) + online_sum(other.phases@) <= u128::MAX,
    ensures
        after.spec_total() == before.spec_total() + other.spec_total(),
        after.bucket_sum() == before.bucket_sum() + other.bucket_sum(),
        named_sum(after.phases@, name) == named_sum(before.phases@, name) + named_sum(
            other.phases@,
            name,
        ),
        before.phases@.len() <= after.phases@.len(),
        forall|i: int|
            0 <= i < before.phases@.len() ==> (#[trigger] after.phases@[i]).name@
                == before.phases@[i].name@,
        forall|i: int, j: int|
            before.phases@.len() <= i < after.phases@.len() && 0 <= j < i ==> (
            #[trigger] after.phases@[j]).name@ != (#[trigger] after.phases@[i]).name@,
        forall|i: int|
            before.phases@.len() <= i < after.phases@.len() ==> exists|k: int|
                0 <= k < other.phases@.len() && (#[trigger] other.phases@[k]).name@ == (
                #[trigger] after.phases@[i]).name@,
{
    law_merging_adds_time(before.phases@, other.phases@);
    law_merging_adds_by_name(before.phases@, other.phases@, name);
    law_merging_keeps_order(before.phases@, other.phases@);
    lemma_accumulated_buckets(before, other, after);
    if after.phases@.len() == 0 && other.phases@.len() > 0 {
        let i = choose|i: int|
            0 <= i < after.phases@.len() && (#[trigger] after.phases@[i]).name@
                == other.phases@[0].name@;
        assert(false);
    }
}

impl OnlineTimings {
    /// Folds another report into this one: phases of the same name are added up.
    pub fn accumulate(&mut self, other: &OnlineTimings)
        requires
            online_sum(old(self).phases@) + online_sum(other.phases@) <= u128::MAX,
            old(self).key_precompute.nanos + other.key_precompute.nanos <= u128::MAX,
            old(self).prepare_db.nanos + other.prepare_db.nanos <= u128::MAX,
            old(self).mask_product.nanos + other.mask_product.nanos <= u128::MAX,
            old(self).body_product.nanos + other.body_product.nanos <= u128::MAX,
            old(self).mask_prep.nanos + other.mask_prep.nanos <= u128::MAX,
            old(self).pack_precompute.nanos + other.pack_precompute.nanos <= u128::MAX,
            old(self).pack.nanos + other.pack.nanos <= u128::MAX,
            old(self).decompose.nanos + other.decompose.nanos <= u128::MAX,
            old(self).reduce_precompute.nanos + other.reduce_precompute.nanos <= u128::MAX,
            old(self).reduce.nanos + other.reduce.nanos <= u128::MAX,
        ensures
            old(self).accumulates(*other, *final(self)),
            final(self).phases@ == merged_all(old(self).phases@, other.phases@),
            final(self).key_precompute.nanos == old(self).key_precompute.nanos + other.key_precompute.nanos,
            final(self).prepare_db.nanos == old(self).prepare_db.nanos + other.prepare_db.nanos,
            final(self).mask_product.nanos == old(self).mask_product.nanos + other.mask_product.nanos,
            final(self).body_product.nanos == old(self).body_product.nanos + other.body_product.nanos,
            final(self).mask_prep.nanos == old(self).mask_prep.nanos + other.mask_prep.nanos,
            final(self).pack_precompute.nanos == old(self).pack_precompute.nanos
                + other.pack_precompute.nanos,
            final(self).pack.nanos == old(self).pack.nanos + other.pack.nanos,
            final(self).decompose.nanos == old(self).decompose.nanos + other.decompose.nanos,
            final(self).reduce_precompute.nanos == old(self).reduce_precompute.nanos
                + other.reduce_precompute.nanos,
            final(self).reduce.nanos == old(self).reduce.nanos + other.reduce.nanos,
    {
        let ghost before = *self;
        let mut k: usize = 0;
        assert(other.phases@.take(0) =~= Seq::<OnlinePhaseTiming>::empty());
        while k < other.phases.len()
            invariant
                k <= other.phases@.len(),
                online_sum(before.phases@) + online_sum(other.phases@) <= u128::MAX,
                self.phases@ == merged_all(before.phases@, other.phases@.take(k as int)),
                self.key_precompute == before.key_precompute,
                self.prepare_db == before.prepare_db,
                self.mask_product == before.mask_product,
                self.body_product == before.body_product,
                self.mask_prep == before.mask_prep,
                self.pack_precompute == before.pack_precompute,
                self.pack == before.pack,
                self.decompose == before.decompose,
                self.reduce_precompute == before.reduce_precompute,
                self.reduce == before.reduce,
            decreases other.phases@.len() - k,
        {
            proof {
                lemma_online_prefix(other.phases@, k as int);
                lemma_online_prefix(other.phases@, k + 1);
                law_merging_adds_time(before.phases@, other.phases@.take(k as int));
                assert(other.phases@.take(k + 1).drop_last() =~= other.phases@.take(k as int));
            }
            let p: OnlinePhaseTiming = other.phases[k];
            let mut i: usize = 0;
            while i < self.phases.len() && !same_name(self.phases[i].name, p.name)
                invariant
                    i <= self.phases@.len(),
                    forall|j: int| 0 <= j < i ==> (#[trigger] self.phases@[j]).name@ != p.name@,
                decreases self.phases@.len() - i,
            {
                i = i + 1;
            }
            proof {
                lemma_first_named_at(self.phases@, p.name@, i as int);
            }
            if i < self.phases.len() {
                proof {
                    lemma_phase_bound(self.phases@, i as int);
                }
                let sum: Duration = self.phases[i].duration.plus(p.duration);
                let name: &'static str = self.phases[i].name;
                self.phases[i] = OnlinePhaseTiming { name, duration: sum };
            } else {
                self.phases.push(p);
            }
            k = k + 1;
        }
        assert(other.phases@.take(other.phases@.len() as int) =~= other.phases@);
        self.key_precompute = self.key_precompute.plus(other.key_precompute);
        self.prepare_db = self.prepare_db.plus(other.prepare_db);
        self.mask_product = self.mask_product.plus(other.mask_product);
        self.body_product = self.body_product.plus(other.body_product);
        self.mask_prep = self.mask_prep.plus(other.mask_prep);
        self.pack_precompute = self.pack_precompute.plus(other.pack_precompute);
        self.pack = self.pack.plus(other.pack);
        self.decompose = self.decompose.plus(other.decompose);
        self.reduce_precompute = self.reduce_precompute.plus(other.reduce_precompute);
        self.reduce = self.reduce.plus(other.reduce);
    }
}

proof fn lemma_offline_sum(phases: Seq<OfflinePhaseTiming>)
    ensures
        offline_sum(phases) == int_sum(
            0,
            phases.len() as int,
            |i: int| phases[i].duration.nanos as int,
        ),
    decreases phases.len(),
{
    if phases.len() > 0 {
        let fewer = phases.drop_last();
        lemma_offline_sum(fewer);
        let last = phases.len() - 1;
        lemma_int_sum_congruent(
            0,
            last,
            |i: int| fewer[i].duration.nanos as int,
            |i: int| phases[i].duration.nanos as int,
        );
    }
}

proof fn lemma_online_sum(phases: Seq<OnlinePhaseTiming>)
    ensures
        online_sum(phases) == int_sum(
            0,
            phases.len() as int,
            |i: int| phases[i].duration.nanos as int,
        ),
    decreases phases.len(),
{
    if phases.len() > 0 {
        let fewer = phases.drop_last();
        lemma_online_sum(fewer);
        let last = phases.len() - 1;
        lemma_int_sum_congruent(
            0,
            last,
            |i: int| fewer[i].duration.nanos as int,
            |i: int| phases[i].duration.nanos as int,
        );
    }
}

/// The total of a report is the time of its phases, or of its kinds of work where no phase
/// was recorded.
pub proof fn law_totals_add_up(
    offline: &OfflineTimings,
    online: &OnlineTimings,
    offline_total: Duration,
    online_total: Duration,
)
    requires
        call_ensures(OfflineTimings::total, (offline,), offline_total),
        call_ensures(OnlineTimings::total, (online,), online_total),
    ensures
        offline.phases@.len() > 0 ==> offline_total.nanos == int_sum(
            0,
            offline.phases@.len() as int,
            |i: int| offline.phases@[i].duration.nanos as int,
        ),
        offline.phases@.len() == 0 ==> offline_total.nanos == offline.interpolation.nanos
            + offline.prepare_u.nanos + offline.ua_mask.nanos + offline.mask_prep.nanos
            + offline.pack_precompute.nanos,
        online.phases@.len() > 0 ==> online_total.nanos == int_sum(
            0,
            online.phases@.len() as int,
            |i: int| online.phases@[i].duration.nanos as int,
        ),
        online.phases@.len() == 0 ==> online_total.nanos == online.key_precompute.nanos
            + online.prepare_db.nanos + online.mask_product.nanos + online.body_product.nanos
            + online.mask_prep.nanos + online.pack_precompute.nanos + online.pack.nanos
            + online.decompose.nanos + online.reduce_precompute.nanos + online.reduce.nanos,
{
    lemma_offline_sum(offline.phases@);
    lemma_online_sum(online.phases@);
}

} // verus!

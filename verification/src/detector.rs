//! The watched regions and the check that every access to them goes through.

use rand::Rng;
use vstd::prelude::*;
use crate::memory_tracking::{accepts, marked, read_at, unread, MemoryTracker};
use crate::span::{Interval, Span, SpanRelation};
use crate::Address;

verus! {

/// What a watched region stands for: its range and the ranges read in it.
pub struct RegionView {
    pub span: Interval,
    pub reads: Seq<Interval>,
}

/// What a detector stands for.
pub struct DetectorView {
    pub initialized: bool,
    /// The watched regions, oldest first.
    pub regions: Seq<RegionView>,
    /// The shared-memory segments that were created and not yet attached,
    /// each as its identifier and its size, oldest first.
    pub pending: Seq<(i32, usize)>,
}

/// The region is classified against `target` as anything but disjoint.
pub open spec fn related(region: RegionView, target: Interval) -> bool {
    target.relation(region.span) != SpanRelation::Disjoint
}

/// Region `i` is the first that is related to `target`.
pub open spec fn owns(regions: Seq<RegionView>, target: Interval, i: int) -> bool {
    &&& 0 <= i < regions.len()
    &&& related(regions[i], target)
    &&& forall|j: int| 0 <= j < i ==> !related(#[trigger] regions[j], target)
}

/// No region is related to `target`.
pub open spec fn unowned(regions: Seq<RegionView>, target: Interval) -> bool {
    forall|j: int| 0 <= j < regions.len() ==> !related(#[trigger] regions[j], target)
}

/// The access can be checked: where it is a write to a range that a region
/// owns, the range can be marked as read in that region.
pub open spec fn admissible(regions: Seq<RegionView>, target: Interval, is_write: bool) -> bool {
    forall|i: int| is_write && owns(regions, target, i) ==> accepts(regions[i].reads, target)
}

/// An access to `target` on the state `before` gets `verdict` and leaves
/// the state `after`.
pub open spec fn classified(
    before: DetectorView,
    target: Interval,
    is_write: bool,
    verdict: Verdict,
    after: DetectorView,
) -> bool {
    &&& unowned(before.regions, target) ==> verdict == Verdict::Unwatched && after == before
    &&& forall|i: int|
        owns(before.regions, target, i) ==> {
            let region = before.regions[i];
            if is_write || unread(region.reads, target) {
                &&& verdict == Verdict::Marked
                &&& after == (DetectorView {
                    regions: before.regions.update(
                        i,
                        RegionView { span: region.span, reads: marked(region.reads, target) },
                    ),
                    ..before
                })
            } else {
                &&& verdict matches Verdict::DoubleFetch(fault)
                &&& read_at(region.reads, target, fault as int)
                &&& after == before
            }
        }
}

/// How an access was classified.
#[derive(Clone, Copy, Debug, PartialEq, Eq, Structural)]
pub enum Verdict {
    /// No watched region owns the range: nothing was checked.
    Unwatched,
    /// A write, or the first read of the range: the range is now marked as
    /// read.
    Marked,
    /// A read of a range that overlaps what is marked as read. The address
    /// is the start of the highest span that the range overlaps.
    DoubleFetch(Address),
}

impl Verdict {
    /// The signal for the code that made the access. It is "no fault"
    /// whatever was found: a double fetch is never reported this way.
    pub fn fault(&self) -> (b: bool)
        ensures
            !b,
    {
        false
    }
}

/// A watched range of addresses with the record of what was read in it.
struct Region {
    span: Span,
    tracker: MemoryTracker,
}

impl View for Region {
    type V = RegionView;

    closed spec fn view(&self) -> RegionView {
        RegionView { span: self.span@, reads: self.tracker@ }
    }
}

/// The state of the detector: the watched regions and the shared-memory
/// segments that wait to be attached. It is made uninitialized and must be
/// initialized once before anything else is done with it.
pub struct Detector {
    ready: bool,
    regions: Vec<Region>,
    pending: Vec<(i32, usize)>,
}

impl View for Detector {
    type V = DetectorView;

    closed spec fn view(&self) -> DetectorView {
        DetectorView {
            initialized: self.ready,
            regions: self.regions@.map_values(|r: Region| r@),
            pending: self.pending@,
        }
    }
}

impl Detector {
    /// A detector that is not initialized yet.
    pub fn new() -> (d: Detector)
        ensures
            !d@.initialized,
    {
        Detector { ready: false, regions: Vec::new(), pending: Vec::new() }
    }

    pub fn is_initialized(&self) -> (b: bool)
        ensures
            b == self@.initialized,
    {
        self.ready
    }

    /// Sets the detector up with no region and no pending segment.
    pub fn initialize(&mut self)
        requires
            !old(self)@.initialized,
        ensures
            final(self)@ == (DetectorView {
                initialized: true,
                regions: Seq::empty(),
                pending: Seq::empty(),
            }),
    {
        self.ready = true;
        self.regions = Vec::new();
        self.pending = Vec::new();
        assert(self@.regions =~= Seq::empty());
    }

    /// Starts to watch `[addr, addr + len)`, with nothing read in it yet.
    pub fn watch_region(&mut self, addr: Address, len: usize)
        requires
            old(self)@.initialized,
        ensures
            final(self)@ == (DetectorView {
                regions: old(self)@.regions.push(
                    RegionView {
                        span: Interval::with_len(addr as int, len as int),
                        reads: Seq::empty(),
                    },
                ),
                ..old(self)@
            }),
    {
        let region = Region { span: Span::with_len(addr, len), tracker: MemoryTracker::default() };
        self.regions.push(region);
        assert(self@.regions =~= old(self)@.regions.push(
            RegionView { span: Interval::with_len(addr as int, len as int), reads: Seq::empty() },
        ));
    }

    /// The first region that is related to `target`, if there is one.
    fn position(&self, target: &Span) -> (found: Option<usize>)
        ensures
            match found {
                Some(i) => owns(self@.regions, target@, i as int),
                None => unowned(self@.regions, target@),
            },
    {
        let mut i: usize = 0;
        while i < self.regions.len()
            invariant
                i <= self.regions.len(),
                forall|j: int| 0 <= j < i ==> !related(#[trigger] self@.regions[j], target@),
            decreases self.regions.len() - i,
        {
            assert(self@.regions[i as int] == self.regions[i as int]@);
            if target.relation(&self.regions[i].span) != SpanRelation::Disjoint {
                return Some(i);
            }
            i += 1;
        }
        None
    }

    /// The region that owns `[addr, addr + len)`: the first that is related
    /// to it. The range need not lie inside the region.
    pub fn lookup(&self, addr: Address, len: usize) -> (owner: Option<usize>)
        requires
            self@.initialized,
        ensures
            match owner {
                Some(i) => owns(self@.regions, Interval::with_len(addr as int, len as int), i as int),
                None => unowned(self@.regions, Interval::with_len(addr as int, len as int)),
            },
    {
        let target = Span::with_len(addr, len);
        self.position(&target)
    }

    /// Stops watching the region that owns the byte at `addr`, and forgets
    /// what was read in it. Tells whether there was such a region.
    pub fn unwatch_region(&mut self, addr: Address) -> (found: bool)
        requires
            old(self)@.initialized,
        ensures
            found == !unowned(old(self)@.regions, Interval::with_len(addr as int, 1)),
            !found ==> final(self)@ == old(self)@,
            forall|i: int|
                owns(old(self)@.regions, Interval::with_len(addr as int, 1), i) ==> final(self)@ == (
                DetectorView { regions: old(self)@.regions.remove(i), ..old(self)@ }),
    {
        let target = Span::with_len(addr, 1);
        match self.position(&target) {
            Some(i) => {
                self.regions.remove(i);
                assert(self@.regions =~= old(self)@.regions.remove(i as int));
                true
            },
            None => false,
        }
    }

    /// Number of watched regions.
    pub fn len(&self) -> (n: usize)
        ensures
            n == self@.regions.len(),
    {
        self.regions.len()
    }

    /// The range of region `i`.
    pub fn region(&self, i: usize) -> (span: Span)
        requires
            i < self@.regions.len(),
        ensures
            span@ == self@.regions[i as int].span,
    {
        self.regions[i].span
    }

    /// The record of what was read in region `i`.
    pub fn tracker(&self, i: usize) -> (tracker: &MemoryTracker)
        requires
            i < self@.regions.len(),
        ensures
            tracker@ == self@.regions[i as int].reads,
    {
        &self.regions[i].tracker
    }

    /// Whether the access can be checked.
    pub fn admits(&self, addr: Address, len: usize, is_write: bool) -> (b: bool)
        requires
            self@.initialized,
        ensures
            b == admissible(self@.regions, Interval::with_len(addr as int, len as int), is_write),
    {
        if !is_write {
            return true;
        }
        let target = Span::with_len(addr, len);
        match self.position(&target) {
            Some(i) => {
                assert(self@.regions[i as int] == self.regions[i as int]@);
                self.regions[i].tracker.can_track(addr, len)
            },
            None => true,
        }
    }

    /// Classifies an access to `[addr, addr + len)` and records it. An
    /// access to a range that no region owns is not checked. A write marks
    /// the range as read in the region that owns it. So does a read of a
    /// range of which nothing was read before. A read of a range that
    /// overlaps what was read before is a double fetch and changes nothing.
    pub fn classify(&mut self, addr: Address, len: usize, is_write: bool) -> (verdict: Verdict)
        requires
            old(self)@.initialized,
            admissible(old(self)@.regions, Interval::with_len(addr as int, len as int), is_write),
        ensures
            classified(old(self)@, Interval::with_len(addr as int, len as int), is_write, verdict, final(self)@),
    {
        let target = Span::with_len(addr, len);
        let owner = self.position(&target);
        let i = match owner {
            Some(i) => i,
            None => {
                return Verdict::Unwatched;
            },
        };
        assert(self@.regions[i as int] == self.regions[i as int]@);
        if !is_write {
            match self.regions[i].tracker.check(addr, len) {
                Ok(()) => {
                    proof {
                        lemma_unread_accepts(self@.regions[i as int].reads, target@);
                    }
                },
                Err(fault) => {
                    return Verdict::DoubleFetch(fault);
                },
            }
        }
        self.regions[i].tracker.track_access(addr, len);
        assert(self@.regions =~= old(self)@.regions.update(
            i as int,
            RegionView {
                span: old(self)@.regions[i as int].span,
                reads: marked(old(self)@.regions[i as int].reads, target@),
            },
        ));
        Verdict::Marked
    }

    /// Checks an access to `[addr, addr + len)`: classifies and records it,
    /// and where it is a double fetch, decides by the toss of a coin whether
    /// the bytes that were fetched are to be overwritten. The second result
    /// holds the `len` bytes to write over them, if they are.
    pub fn check_access(&mut self, addr: Address, len: usize, is_write: bool) -> (r: (
        Verdict,
        Option<Vec<u8>>,
    ))
        requires
            old(self)@.initialized,
            admissible(old(self)@.regions, Interval::with_len(addr as int, len as int), is_write),
        ensures
            classified(old(self)@, Interval::with_len(addr as int, len as int), is_write, r.0, final(self)@),
            r.1.is_some() ==> r.0 is DoubleFetch,
            r.1 matches Some(bytes) ==> bytes@.len() == len,
    {
        let verdict = self.classify(addr, len, is_write);
        let noise = match verdict {
            Verdict::DoubleFetch(_) => fault_injection(len),
            _ => None,
        };
        (verdict, noise)
    }
}

/// Draws one bit from `rand::thread_rng()` with `Rng::gen`. The generator
/// sets it as often as not, which no clause can say: nothing is claimed of
/// the result, and two calls may differ. The call fails only where the
/// operating system gives the generator no seed.
#[verifier::external_body]
fn coin() -> (heads: bool) {
    rand::thread_rng().gen()
}

/// Draws one byte from `rand::thread_rng()` with `Rng::gen`. Nothing is
/// claimed of the result, and two calls may differ. The call fails only
/// where the operating system gives the generator no seed.
#[verifier::external_body]
fn random_byte() -> (byte: u8) {
    rand::thread_rng().gen()
}

/// What to overwrite the `len` bytes of a double fetch with, for the given
/// outcome of the coin: nothing where it is not set, else `len` random bytes.
pub fn injected(heads: bool, len: usize) -> (noise: Option<Vec<u8>>)
    ensures
        noise.is_some() == heads,
        noise matches Some(bytes) ==> bytes@.len() == len,
{
    if !heads {
        return None;
    }
    let mut bytes: Vec<u8> = Vec::new();
    while bytes.len() < len
        invariant
            bytes@.len() <= len,
        decreases len - bytes@.len(),
    {
        bytes.push(random_byte());
    }
    Some(bytes)
}

/// Decides by the toss of a coin whether the bytes of a double fetch are to
/// be overwritten, and with what: `len` random bytes, or nothing.
pub fn fault_injection(len: usize) -> (noise: Option<Vec<u8>>)
    ensures
        noise matches Some(bytes) ==> bytes@.len() == len,
{
    injected(coin(), len)
}

/// Notes that a shared-memory segment with identifier `id` and `size` bytes
/// was created and waits to be attached.
pub fn asan_remember_shm_id(detector: &mut Detector, id: i32, size: usize)
    requires
        old(detector)@.initialized,
    ensures
        final(detector)@ == (DetectorView {
            pending: old(detector)@.pending.push((id, size)),
            ..old(detector)@
        }),
{
    detector.pending.push((id, size));
}

/// The oldest pending segment with identifier `id`, if there is one.
pub open spec fn awaited(pending: Seq<(i32, usize)>, id: i32, i: int) -> bool {
    &&& 0 <= i < pending.len()
    &&& pending[i].0 == id
    &&& forall|j: int| 0 <= j < i ==> (#[trigger] pending[j]).0 != id
}

/// Notes that the segment with identifier `id` was attached at `addr`. The
/// oldest pending segment with that identifier is taken off the list and a
/// region of its size is watched from `addr`; the result is that size. Where
/// no segment with that identifier is pending, nothing changes.
pub fn asan_register_shmat(detector: &mut Detector, id: i32, addr: Address) -> (size: Option<usize>)
    requires
        old(detector)@.initialized,
    ensures
        match size {
            Some(size) => exists|i: int|
                {
                    &&& awaited(old(detector)@.pending, id, i)
                    &&& old(detector)@.pending[i].1 == size
                    &&& final(detector)@ == (DetectorView {
                        initialized: true,
                        regions: old(detector)@.regions.push(
                            RegionView {
                                span: Interval::with_len(addr as int, size as int),
                                reads: Seq::empty(),
                            },
                        ),
                        pending: old(detector)@.pending.remove(i),
                    })
                },
            None => {
                &&& forall|i: int|
                    0 <= i < old(detector)@.pending.len() ==> (#[trigger] old(detector)@.pending[i]).0
                        != id
                &&& final(detector)@ == old(detector)@
            },
        },
{
    let mut i: usize = 0;
    while i < detector.pending.len()
        invariant
            i <= detector.pending.len(),
            detector@ == old(detector)@,
            detector@.initialized,
            detector.pending@ == detector@.pending,
            forall|j: int| 0 <= j < i ==> (#[trigger] detector@.pending[j]).0 != id,
        decreases detector.pending.len() - i,
    {
        if detector.pending[i].0 == id {
            let (_, size) = detector.pending.remove(i);
            assert(detector@ == (DetectorView {
                pending: old(detector)@.pending.remove(i as int),
                ..old(detector)@
            }));
            detector.watch_region(addr, size);
            assert(awaited(old(detector)@.pending, id, i as int));
            return Some(size);
        }
        i += 1;
    }
    None
}

/// A range that overlaps no span can be marked as read.
pub proof fn lemma_unread_accepts(reads: Seq<Interval>, new: Interval)
    requires
        unread(reads, new),
    ensures
        accepts(reads, new),
{
}

} // verus!

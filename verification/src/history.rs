//! A value together with its history: one checkpoint for every version in
//! which the value was written.

use vstd::prelude::*;

verus! {

/// The value that was in force from `version` on, until the next checkpoint.
#[derive(Clone, Copy, Debug, PartialEq, Eq)]
pub struct Checkpoint {
    pub version: u64,
    pub value: u128,
}

/// Versions strictly increase along the history: no version occurs twice.
pub open spec fn ascending(h: Seq<Checkpoint>) -> bool {
    forall|i: int, j: int| 0 <= i < j < h.len() ==> h[i].version < h[j].version
}

/// No checkpoint of `h` is later than `version`, so a write at `version`
/// goes to the end of the history.
pub open spec fn admits(h: Seq<Checkpoint>, version: u64) -> bool {
    forall|i: int| 0 <= i < h.len() ==> h[i].version <= version
}

/// The value now: that of the last checkpoint, zero where nothing was written.
pub open spec fn latest(h: Seq<Checkpoint>) -> u128 {
    if h.len() == 0 {
        0
    } else {
        h.last().value
    }
}

/// The value as of `version`: that of the last checkpoint at or before
/// `version`, zero where there is none.
pub open spec fn value_at(h: Seq<Checkpoint>, version: u64) -> u128
    decreases h.len(),
{
    if h.len() == 0 {
        0
    } else if h.last().version <= version {
        h.last().value
    } else {
        value_at(h.drop_last(), version)
    }
}

/// The history after `value` was written at `version`: a checkpoint at
/// `version` is overwritten, otherwise one is appended.
pub open spec fn record(h: Seq<Checkpoint>, version: u64, value: u128) -> Seq<Checkpoint> {
    let c = Checkpoint { version, value };
    if h.len() > 0 && h.last().version == version {
        h.drop_last().push(c)
    } else {
        h.push(c)
    }
}

/// With `k` the number of checkpoints at or before `version`, the value as of
/// `version` is that of checkpoint `k - 1`.
pub proof fn lemma_value_at_boundary(h: Seq<Checkpoint>, version: u64, k: int)
    requires
        0 <= k <= h.len(),
        forall|i: int| 0 <= i < k ==> h[i].version <= version,
        forall|i: int| k <= i < h.len() ==> h[i].version > version,
    ensures
        value_at(h, version) == if k == 0 {
            0
        } else {
            h[k - 1].value
        },
    decreases h.len(),
{
    if h.len() > 0 && h.last().version > version {
        lemma_value_at_boundary(h.drop_last(), version, k);
    }
}

/// Where no checkpoint is later than `version`, the value as of `version` is
/// the latest one.
pub proof fn lemma_value_at_admitted(h: Seq<Checkpoint>, version: u64)
    requires
        admits(h, version),
    ensures
        value_at(h, version) == latest(h),
{
}

/// A write at a version that the history admits keeps the history in order
/// and leaves no checkpoint later than that version.
pub proof fn lemma_record_ascending(h: Seq<Checkpoint>, version: u64, value: u128)
    requires
        ascending(h),
        admits(h, version),
    ensures
        ascending(record(h, version, value)),
        admits(record(h, version, value), version),
        record(h, version, value).len() > 0,
        latest(record(h, version, value)) == value,
{
}

/// After a write at `version` the value as of `version` and of every later
/// version is the value written; as of every earlier version it is what it
/// was.
pub proof fn lemma_value_at_record(h: Seq<Checkpoint>, version: u64, value: u128, at: u64)
    requires
        admits(h, version),
    ensures
        value_at(record(h, version, value), at) == if at >= version {
            value
        } else {
            value_at(h, at)
        },
{
    let r = record(h, version, value);
    if at < version {
        if h.len() > 0 && h.last().version == version {
            assert(r.drop_last() =~= h.drop_last());
        } else {
            assert(r.drop_last() =~= h);
        }
    }
}

/// A single versioned value and its checkpoints.
#[derive(Clone, Debug, PartialEq, Eq)]
pub struct VersionedValue {
    checkpoints: Vec<Checkpoint>,
}

impl View for VersionedValue {
    type V = Seq<Checkpoint>;

    closed spec fn view(&self) -> Seq<Checkpoint> {
        self.checkpoints@
    }
}

impl VersionedValue {
    /// The checkpoints are in ascending order of version.
    pub open spec fn wf(&self) -> bool {
        ascending(self@)
    }

    /// A value that was never written.
    pub fn new() -> (r: Self)
        ensures
            r.wf(),
            r@ == Seq::<Checkpoint>::empty(),
    {
        VersionedValue { checkpoints: Vec::new() }
    }

    /// The value with the given checkpoints, if they are in ascending order
    /// of version.
    pub fn from_checkpoints(checkpoints: Vec<Checkpoint>) -> (r: Option<Self>)
        ensures
            r is Some <==> ascending(checkpoints@),
            r matches Some(v) ==> v.wf() && v@ == checkpoints@,
    {
        let mut i: usize = 1;
        while i < checkpoints.len()
            invariant
                1 <= i,
                forall|a: int, b: int|
                    0 <= a < b < i && b < checkpoints@.len() ==> checkpoints@[a].version
                        < checkpoints@[b].version,
            decreases checkpoints@.len() - i,
        {
            if checkpoints[i - 1].version >= checkpoints[i].version {
                return None;
            }
            i += 1;
        }
        Some(VersionedValue { checkpoints })
    }

    /// The checkpoints, in ascending order of version.
    pub fn checkpoints(&self) -> (r: Vec<Checkpoint>)
        ensures
            r@ == self@,
    {
        let mut r: Vec<Checkpoint> = Vec::new();
        let mut i: usize = 0;
        while i < self.checkpoints.len()
            invariant
                i <= self.checkpoints@.len(),
                r@ == self.checkpoints@.take(i as int),
            decreases self.checkpoints@.len() - i,
        {
            r.push(self.checkpoints[i]);
            assert(self.checkpoints@.take(i + 1) =~= self.checkpoints@.take(i as int).push(
                self.checkpoints@[i as int],
            ));
            i += 1;
        }
        assert(self.checkpoints@.take(i as int) =~= self.checkpoints@);
        r
    }

    /// Whether no checkpoint is later than `version`.
    pub fn admits(&self, version: u64) -> (r: bool)
        requires
            self.wf(),
        ensures
            r == admits(self@, version),
    {
        let n = self.checkpoints.len();
        n == 0 || self.checkpoints[n - 1].version <= version
    }

    /// The number of checkpoints.
    pub fn len(&self) -> (n: usize)
        ensures
            n == self@.len(),
    {
        self.checkpoints.len()
    }

    /// The latest value, zero if the value was never written.
    pub fn read_current(&self) -> (r: u128)
        ensures
            r == latest(self@),
    {
        let n = self.checkpoints.len();
        if n == 0 {
            0
        } else {
            self.checkpoints[n - 1].value
        }
    }

    /// The value as of `version`: that of the last checkpoint at or before
    /// `version`, zero if there is none. A binary search over the checkpoints.
    pub fn read_at(&self, version: u64) -> (r: u128)
        requires
            self.wf(),
        ensures
            r == value_at(self@, version),
    {
        let mut lo: usize = 0;
        let mut hi: usize = self.checkpoints.len();
        while lo < hi
            invariant
                self.wf(),
                lo <= hi <= self.checkpoints.len(),
                forall|i: int| 0 <= i < lo ==> self@[i].version <= version,
                forall|i: int| hi <= i < self@.len() ==> self@[i].version > version,
            decreases hi - lo,
        {
            let mid: usize = lo + (hi - lo) / 2;
            if self.checkpoints[mid].version <= version {
                lo = mid + 1;
            } else {
                hi = mid;
            }
        }
        proof {
            lemma_value_at_boundary(self@, version, lo as int);
        }
        if lo == 0 {
            0
        } else {
            self.checkpoints[lo - 1].value
        }
    }

    /// The version of the last checkpoint, if there is one.
    pub fn last_version(&self) -> (r: Option<u64>)
        ensures
            r == if self@.len() == 0 {
                None
            } else {
                Some(self@.last().version)
            },
    {
        let n = self.checkpoints.len();
        if n == 0 {
            None
        } else {
            Some(self.checkpoints[n - 1].version)
        }
    }

    /// Records that the value at `version` is `value`.
    pub fn write(&mut self, version: u64, value: u128)
        requires
            old(self).wf(),
            admits(old(self)@, version),
        ensures
            final(self).wf(),
            final(self)@ == record(old(self)@, version, value),
    {
        let n = self.checkpoints.len();
        let c = Checkpoint { version, value };
        if n > 0 && self.checkpoints[n - 1].version == version {
            self.checkpoints[n - 1] = c;
            assert(self.checkpoints@ =~= old(self)@.drop_last().push(c));
        } else {
            self.checkpoints.push(c);
        }
    }

    /// Applies `f` to the latest value and, if it succeeds, writes the result
    /// at `version`. If `f` fails its error is handed on and nothing changes.
    pub fn update<E, F: FnOnce(u128) -> Result<u128, E>>(&mut self, version: u64, f: F) -> (r:
        Result<u128, E>)
        requires
            old(self).wf(),
            admits(old(self)@, version),
            f.requires((latest(old(self)@),)),
        ensures
            final(self).wf(),
            f.ensures((latest(old(self)@),), r),
            match r {
                Ok(value) => final(self)@ == record(old(self)@, version, value),
                Err(_) => final(self)@ == old(self)@,
            },
    {
        match f(self.read_current()) {
            Ok(value) => {
                self.write(version, value);
                Ok(value)
            },
            Err(e) => Err(e),
        }
    }
}

} // verus!

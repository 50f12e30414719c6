//! Queue families, command encoders and the per-family command pool
//! bookkeeping.
//!
//! The native pools and command buffers are created and destroyed by the
//! caller; [`CommandEncoderAllocator`] records which pool serves which queue
//! family and which command buffers of each pool are still outstanding, so
//! that at shutdown every buffer is freed before its pool is destroyed.

use vstd::prelude::*;

verus! {

/// Queue capability bit: graphics commands.
pub const QUEUE_GRAPHICS: u32 = 1;

/// Queue capability bit: compute dispatches.
pub const QUEUE_COMPUTE: u32 = 2;

/// Queue capability bit: transfer commands.
pub const QUEUE_TRANSFER: u32 = 4;

/// Queue capability bit: sparse memory binding.
pub const QUEUE_SPARSE_BINDING: u32 = 8;

/// A queue family as selected at device creation.
#[derive(Clone, Copy, Debug, PartialEq, Eq, Structural)]
pub struct QueueFamily {
    pub index: u32,
    pub queue_flags: u32,
    pub present: bool,
}

impl QueueFamily {
    pub fn new(index: u32, queue_flags: u32, supports_present: bool) -> (r: QueueFamily)
        ensures
            r.index == index,
            r.queue_flags == queue_flags,
            r.present == supports_present,
    {
        QueueFamily { index, queue_flags, present: supports_present }
    }

    pub fn supports_present(&self) -> (r: bool)
        ensures
            r == self.present,
    {
        self.present
    }

    pub fn supports_graphics(&self) -> (r: bool)
        ensures
            r == (self.queue_flags & QUEUE_GRAPHICS != 0),
    {
        self.queue_flags & QUEUE_GRAPHICS != 0
    }

    pub fn supports_compute(&self) -> (r: bool)
        ensures
            r == (self.queue_flags & QUEUE_COMPUTE != 0),
    {
        self.queue_flags & QUEUE_COMPUTE != 0
    }

    pub fn supports_transfer(&self) -> (r: bool)
        ensures
            r == (self.queue_flags & QUEUE_TRANSFER != 0),
    {
        self.queue_flags & QUEUE_TRANSFER != 0
    }

    pub fn supports_sparse_binding(&self) -> (r: bool)
        ensures
            r == (self.queue_flags & QUEUE_SPARSE_BINDING != 0),
    {
        self.queue_flags & QUEUE_SPARSE_BINDING != 0
    }
}

#[derive(Clone, Copy, Debug, PartialEq, Eq, Structural)]
pub enum CommandError {
    /// Recording was begun on an encoder that is already recording.
    AlreadyRecording,
    /// Recording was ended on an encoder that is not recording.
    NotRecording,
    /// The queue family already has a command pool.
    PoolExists,
    /// The pool is already registered for another queue family.
    DuplicatePool,
    /// The queue family has no command pool yet.
    NoPool,
    /// The command buffer is already outstanding.
    BufferOutstanding,
    /// The command buffer is not outstanding in its family's pool.
    UnknownBuffer,
}

/// A recording context over one command buffer of one queue family.
/// It moves from idle to recording and back.
pub struct CommandEncoder {
    command_buffer: u64,
    family: u32,
    recording: bool,
}

impl CommandEncoder {
    pub closed spec fn spec_command_buffer(&self) -> u64 {
        self.command_buffer
    }

    pub closed spec fn spec_family(&self) -> u32 {
        self.family
    }

    pub closed spec fn spec_recording(&self) -> bool {
        self.recording
    }

    pub fn new(command_buffer: u64, family: u32) -> (r: CommandEncoder)
        ensures
            r.spec_command_buffer() == command_buffer,
            r.spec_family() == family,
            !r.spec_recording(),
    {
        CommandEncoder { command_buffer, family, recording: false }
    }

    pub fn command_buffer(&self) -> (r: u64)
        ensures
            r == self.spec_command_buffer(),
    {
        self.command_buffer
    }

    pub fn family(&self) -> (r: u32)
        ensures
            r == self.spec_family(),
    {
        self.family
    }

    pub fn is_recording(&self) -> (r: bool)
        ensures
            r == self.spec_recording(),
    {
        self.recording
    }

    pub fn begin_recording(&mut self) -> (r: Result<(), CommandError>)
        ensures
            final(self).spec_command_buffer() == old(self).spec_command_buffer(),
            final(self).spec_family() == old(self).spec_family(),
            old(self).spec_recording() ==> r == Err::<(), CommandError>(CommandError::AlreadyRecording)
                && final(self).spec_recording(),
            !old(self).spec_recording() ==> r is Ok && final(self).spec_recording(),
    {
        if self.recording {
            return Err(CommandError::AlreadyRecording);
        }
        self.recording = true;
        Ok(())
    }

    pub fn end_recording(&mut self) -> (r: Result<(), CommandError>)
        ensures
            final(self).spec_command_buffer() == old(self).spec_command_buffer(),
            final(self).spec_family() == old(self).spec_family(),
            !old(self).spec_recording() ==> r == Err::<(), CommandError>(CommandError::NotRecording)
                && !final(self).spec_recording(),
            old(self).spec_recording() ==> r is Ok && !final(self).spec_recording(),
    {
        if !self.recording {
            return Err(CommandError::NotRecording);
        }
        self.recording = false;
        Ok(())
    }
}

/// One command pool, the queue family it serves and its outstanding
/// command buffers.
pub struct CommandPoolRecord {
    pub family: u32,
    pub pool: u64,
    pub buffers: Vec<u64>,
}

/// The family, pool and outstanding buffers of a record.
pub open spec fn record_view(r: CommandPoolRecord) -> (u32, u64, Seq<u64>) {
    (r.family, r.pool, r.buffers@)
}

/// `i` is the record of queue family `family`.
pub open spec fn record_of(recs: Seq<(u32, u64, Seq<u64>)>, family: u32, i: int) -> bool {
    0 <= i < recs.len() && recs[i].0 == family
}

/// Some record holds `buffer` among its outstanding buffers.
pub open spec fn outstanding(recs: Seq<(u32, u64, Seq<u64>)>, buffer: u64) -> bool {
    exists|i: int| 0 <= i < recs.len() && #[trigger] recs[i].2.contains(buffer)
}

/// Families are distinct, pools are distinct and no buffer is outstanding
/// twice.
pub open spec fn records_wf(recs: Seq<(u32, u64, Seq<u64>)>) -> bool {
    &&& forall|i: int, j: int|
        #![trigger recs[i], recs[j]]
        0 <= i < j < recs.len() ==> recs[i].0 != recs[j].0 && recs[i].1 != recs[j].1
    &&& forall|i: int| #![trigger recs[i]] 0 <= i < recs.len() ==> recs[i].2.no_duplicates()
    &&& forall|i: int, j: int, b: u64|
        #![trigger recs[i].2.contains(b), recs[j].2.contains(b)]
        0 <= i < j < recs.len() && recs[i].2.contains(b) ==> !recs[j].2.contains(b)
}

/// The command pools, one per queue family, and the command buffers that
/// each has handed out and not yet taken back.
pub struct CommandEncoderAllocator {
    pools: Vec<CommandPoolRecord>,
}

impl CommandEncoderAllocator {
    pub closed spec fn records(&self) -> Seq<(u32, u64, Seq<u64>)> {
        self.pools@.map_values(|r: CommandPoolRecord| record_view(r))
    }

    pub open spec fn wf(&self) -> bool {
        records_wf(self.records())
    }

    pub fn new() -> (r: CommandEncoderAllocator)
        ensures
            r.wf(),
            r.records().len() == 0,
    {
        CommandEncoderAllocator { pools: Vec::new() }
    }

    fn find(&self, family: u32) -> (r: Option<usize>)
        ensures
            match r {
                Some(i) => record_of(self.records(), family, i as int),
                None => forall|i: int| 0 <= i < self.records().len() ==> #[trigger] self.records()[i].0 != family,
            },
    {
        let mut i: usize = 0;
        while i < self.pools.len()
            invariant
                i <= self.pools@.len(),
                forall|j: int| 0 <= j < i ==> #[trigger] self.records()[j].0 != family,
            decreases self.pools@.len() - i,
        {
            if self.pools[i].family == family {
                return Some(i);
            }
            i = i + 1;
        }
        None
    }

    /// The pool that serves `family`, if one has been registered.
    pub fn pool_for(&self, family: u32) -> (r: Option<u64>)
        ensures
            r is None <==> forall|i: int| 0 <= i < self.records().len() ==> #[trigger] self.records()[i].0 != family,
            r is Some ==> exists|i: int| record_of(self.records(), family, i) && self.records()[i].1 == r->Some_0,
    {
        match self.find(family) {
            Some(i) => Some(self.pools[i].pool),
            None => None,
        }
    }

    /// Registers the pool just created for `family`, with no buffer out.
    pub fn add_pool(&mut self, family: u32, pool: u64) -> (r: Result<(), CommandError>)
        requires
            old(self).wf(),
        ensures
            final(self).wf(),
            (exists|i: int| record_of(old(self).records(), family, i)) ==> r == Err::<(), CommandError>(
                CommandError::PoolExists,
            ) && final(self).records() == old(self).records(),
            (forall|i: int| 0 <= i < old(self).records().len() ==> #[trigger] old(self).records()[i].0 != family)
                && (exists|i: int| 0 <= i < old(self).records().len() && #[trigger] old(self).records()[i].1 == pool)
                ==> r == Err::<(), CommandError>(CommandError::DuplicatePool) && final(self).records() == old(
                self,
            ).records(),
            (forall|i: int| 0 <= i < old(self).records().len() ==> #[trigger] old(self).records()[i].0 != family)
                && (forall|i: int| 0 <= i < old(self).records().len() ==> #[trigger] old(self).records()[i].1 != pool)
                ==> r is Ok && final(self).records() == old(self).records().push((family, pool, Seq::<u64>::empty())),
    {
        if let Some(i) = self.find(family) {
            assert(record_of(self.records(), family, i as int));
            return Err(CommandError::PoolExists);
        }
        let mut k: usize = 0;
        while k < self.pools.len()
            invariant
                self.pools@ == old(self).pools@,
                self.wf(),
                forall|i: int| 0 <= i < self.records().len() ==> #[trigger] self.records()[i].0 != family,
                k <= self.pools@.len(),
                forall|j: int| 0 <= j < k ==> #[trigger] self.records()[j].1 != pool,
            decreases self.pools@.len() - k,
        {
            if self.pools[k].pool == pool {
                assert(self.records()[k as int].1 == pool);
                return Err(CommandError::DuplicatePool);
            }
            k = k + 1;
        }
        let ghost before = self.records();
        self.pools.push(CommandPoolRecord { family, pool, buffers: Vec::new() });
        proof {
            let recs = self.records();
            assert(recs == before.push((family, pool, Seq::<u64>::empty())));
            assert forall|i: int, j: int, b: u64|
                #![trigger recs[i].2.contains(b), recs[j].2.contains(b)]
                0 <= i < j < recs.len() && recs[i].2.contains(b) implies !recs[j].2.contains(b) by {
                if j < before.len() {
                    assert(recs[i] == before[i] && recs[j] == before[j]);
                }
            }
            assert forall|i: int, j: int| #![trigger recs[i], recs[j]] 0 <= i < j < recs.len() implies recs[i].0
                != recs[j].0 && recs[i].1 != recs[j].1 by {
                if j < before.len() {
                    assert(recs[i] == before[i] && recs[j] == before[j]);
                } else {
                    assert(recs[i] == before[i]);
                }
            }
            assert forall|i: int| #![trigger recs[i]] 0 <= i < recs.len() implies recs[i].2.no_duplicates() by {
                if i < before.len() {
                    assert(recs[i] == before[i]);
                }
            }
        }
        Ok(())
    }

    fn is_outstanding(&self, buffer: u64) -> (r: bool)
        ensures
            r == outstanding(self.records(), buffer),
    {
        let mut i: usize = 0;
        while i < self.pools.len()
            invariant
                i <= self.pools@.len(),
                forall|x: int| 0 <= x < i ==> !(#[trigger] self.records()[x].2.contains(buffer)),
            decreases self.pools@.len() - i,
        {
            let bufs = &self.pools[i].buffers;
            let mut j: usize = 0;
            while j < bufs.len()
                invariant
                    i < self.pools@.len(),
                    *bufs == self.pools@[i as int].buffers,
                    j <= bufs@.len(),
                    forall|y: int| 0 <= y < j ==> bufs@[y] != buffer,
                decreases bufs@.len() - j,
            {
                if bufs[j] == buffer {
                    assert(self.records()[i as int].2[j as int] == buffer);
                    assert(self.records()[i as int].2.contains(buffer));
                    return true;
                }
                j = j + 1;
            }
            assert(!self.records()[i as int].2.contains(buffer));
            i = i + 1;
        }
        false
    }

    /// Records `command_buffer`, just allocated from the pool of `family`,
    /// as outstanding and wraps it in an idle encoder.
    pub fn allocate(&mut self, family: u32, command_buffer: u64) -> (r: Result<CommandEncoder, CommandError>)
        requires
            old(self).wf(),
        ensures
            final(self).wf(),
            (forall|i: int| 0 <= i < old(self).records().len() ==> #[trigger] old(self).records()[i].0 != family)
                ==> r == Err::<CommandEncoder, CommandError>(CommandError::NoPool),
            (exists|i: int| record_of(old(self).records(), family, i)) && outstanding(old(self).records(), command_buffer)
                ==> r == Err::<CommandEncoder, CommandError>(CommandError::BufferOutstanding),
            r is Err ==> final(self).records() == old(self).records(),
            (exists|i: int| record_of(old(self).records(), family, i)) && !outstanding(old(self).records(), command_buffer)
                ==> r is Ok,
            r is Ok ==> {
                let e = r->Ok_0;
                &&& e.spec_command_buffer() == command_buffer
                &&& e.spec_family() == family
                &&& !e.spec_recording()
                &&& exists|i: int|
                    record_of(old(self).records(), family, i) && final(self).records() == old(self).records().update(
                        i,
                        (family, old(self).records()[i].1, old(self).records()[i].2.push(command_buffer)),
                    )
            },
    {
        let i = match self.find(family) {
            Some(i) => i,
            None => {
                return Err(CommandError::NoPool);
            },
        };
        if self.is_outstanding(command_buffer) {
            assert(record_of(self.records(), family, i as int));
            return Err(CommandError::BufferOutstanding);
        }
        let ghost before = self.records();
        let mut rec = self.pools.remove(i);
        rec.buffers.push(command_buffer);
        self.pools.insert(i, rec);
        proof {
            let recs = self.records();
            let nb = before[i as int].2.push(command_buffer);
            assert(recs =~= before.update(i as int, (family, before[i as int].1, nb)));
            assert(!before[i as int].2.contains(command_buffer));
            assert forall|x: int| #![trigger recs[x]] 0 <= x < recs.len() implies recs[x].2.no_duplicates() by {
                if x == i {
                    assert forall|a: int, b: int| 0 <= a < b < nb.len() implies nb[a] != nb[b] by {
                        if b == nb.len() - 1 {
                            assert(before[i as int].2[a] == nb[a]);
                        }
                    }
                }
            }
            assert forall|x: int, y: int, b: u64|
                #![trigger recs[x].2.contains(b), recs[y].2.contains(b)]
                0 <= x < y < recs.len() && recs[x].2.contains(b) implies !recs[y].2.contains(b) by {
                if x == i && b != command_buffer {
                    let k = choose|k: int| 0 <= k < nb.len() && nb[k] == b;
                    assert(before[x].2[k] == b);
                    assert(before[x].2.contains(b));
                }
                if y == i && recs[y].2.contains(b) && b != command_buffer {
                    let k = choose|k: int| 0 <= k < nb.len() && nb[k] == b;
                    assert(before[y].2[k] == b);
                    assert(before[y].2.contains(b));
                }
                if b == command_buffer {
                    if x != i {
                        assert(before[x].2.contains(b));
                    }
                    if y != i && recs[y].2.contains(b) {
                        assert(before[y].2.contains(b));
                    }
                }
            }
            assert forall|x: int, y: int| #![trigger recs[x], recs[y]] 0 <= x < y < recs.len() implies recs[x].0
                != recs[y].0 && recs[x].1 != recs[y].1 by {
                assert(before[x].0 != before[y].0 && before[x].1 != before[y].1);
            }
            assert(record_of(before, family, i as int));
        }
        Ok(CommandEncoder::new(command_buffer, family))
    }

    /// Takes the encoder's command buffer back from the outstanding list of
    /// its family; returns the pool to free it to.
    pub fn free(&mut self, encoder: &CommandEncoder) -> (r: Result<u64, CommandError>)
        requires
            old(self).wf(),
        ensures
            final(self).wf(),
            (forall|i: int| 0 <= i < old(self).records().len() ==> #[trigger] old(self).records()[i].0
                != encoder.spec_family()) ==> r == Err::<u64, CommandError>(CommandError::NoPool),
            (forall|i: int| record_of(old(self).records(), encoder.spec_family(), i)
                ==> !old(self).records()[i].2.contains(encoder.spec_command_buffer()))
                && (exists|i: int| record_of(old(self).records(), encoder.spec_family(), i))
                ==> r == Err::<u64, CommandError>(CommandError::UnknownBuffer),
            r is Err ==> final(self).records() == old(self).records(),
            (exists|i: int|
                record_of(old(self).records(), encoder.spec_family(), i) && old(self).records()[i].2.contains(
                    encoder.spec_command_buffer(),
                )) ==> r is Ok,
            r is Ok ==> exists|i: int, j: int|
                record_of(old(self).records(), encoder.spec_family(), i) && 0 <= j < old(self).records()[i].2.len()
                    && old(self).records()[i].2[j] == encoder.spec_command_buffer() && r->Ok_0
                    == old(self).records()[i].1 && final(self).records() == old(self).records().update(
                    i,
                    (encoder.spec_family(), old(self).records()[i].1, old(self).records()[i].2.remove(j)),
                ),
    {
        let family = encoder.family;
        let buffer = encoder.command_buffer;
        let i = match self.find(family) {
            Some(i) => i,
            None => {
                return Err(CommandError::NoPool);
            },
        };
        let ghost before = self.records();
        proof {
            assert forall|x: int| record_of(before, family, x) implies x == i by {
                if x != i {
                    let (a, b) = if x < i { (x, i as int) } else { (i as int, x) };
                    assert(before[a].0 != before[b].0);
                }
            }
        }
        let bufs = &self.pools[i].buffers;
        let mut j: usize = 0;
        while j < bufs.len() && bufs[j] != buffer
            invariant
                *bufs == self.pools@[i as int].buffers,
                j <= bufs@.len(),
                forall|y: int| 0 <= y < j ==> bufs@[y] != buffer,
            decreases bufs@.len() - j,
        {
            j = j + 1;
        }
        if j == bufs.len() {
            assert(!before[i as int].2.contains(buffer));
            assert(record_of(before, family, i as int));
            return Err(CommandError::UnknownBuffer);
        }
        let mut rec = self.pools.remove(i);
        let pool = rec.pool;
        rec.buffers.remove(j);
        self.pools.insert(i, rec);
        proof {
            let recs = self.records();
            let ob = before[i as int].2;
            let nb = ob.remove(j as int);
            assert(recs =~= before.update(i as int, (family, before[i as int].1, nb)));
            assert forall|b: u64| nb.contains(b) implies ob.contains(b) by {
                let k = choose|k: int| 0 <= k < nb.len() && nb[k] == b;
                if k < j {
                    assert(ob[k] == b);
                } else {
                    assert(ob[k + 1] == b);
                }
            }
            assert forall|x: int| #![trigger recs[x]] 0 <= x < recs.len() implies recs[x].2.no_duplicates() by {
                if x == i {
                    assert forall|a: int, b: int| 0 <= a < b < nb.len() implies nb[a] != nb[b] by {
                        let oa = if a < j { a } else { a + 1 };
                        let ob2 = if b < j { b } else { b + 1 };
                        assert(ob[oa] != ob[ob2]);
                    }
                }
            }
            assert forall|x: int, y: int, b: u64|
                #![trigger recs[x].2.contains(b), recs[y].2.contains(b)]
                0 <= x < y < recs.len() && recs[x].2.contains(b) implies !recs[y].2.contains(b) by {
                assert(recs[x].2.contains(b) ==> before[x].2.contains(b));
                assert(recs[y].2.contains(b) ==> before[y].2.contains(b));
            }
            assert forall|x: int, y: int| #![trigger recs[x], recs[y]] 0 <= x < y < recs.len() implies recs[x].0
                != recs[y].0 && recs[x].1 != recs[y].1 by {
                assert(before[x].0 != before[y].0 && before[x].1 != before[y].1);
            }
            assert(record_of(before, family, i as int));
            assert(ob[j as int] == buffer);
        }
        Ok(pool)
    }

    /// Empties the allocator at shutdown and lists the native calls that
    /// release everything it recorded: for each pool in order of
    /// registration, free its outstanding buffers, then destroy it.
    pub fn shutdown(&mut self) -> (r: Vec<CleanupStep>)
        requires
            old(self).wf(),
        ensures
            final(self).wf(),
            final(self).records().len() == 0,
            r@.map_values(|c: CleanupStep| step_view(c)) == cleanup_plan(old(self).records()),
    {
        let mut recs: Vec<CommandPoolRecord> = Vec::new();
        std::mem::swap(&mut recs, &mut self.pools);
        let ghost orig = recs@.map_values(|p: CommandPoolRecord| record_view(p));
        let ghost n = orig.len() as int;
        let mut steps: Vec<CleanupStep> = Vec::new();
        proof {
            assert(orig.subrange(0, 0) =~= Seq::<(u32, u64, Seq<u64>)>::empty());
            assert(steps@.map_values(|c: CleanupStep| step_view(c)) =~= Seq::<(bool, u64, Seq<u64>)>::empty());
            assert(recs@.map_values(|p: CommandPoolRecord| record_view(p)) =~= orig.subrange(0, n));
        }
        while recs.len() > 0
            invariant
                n == orig.len(),
                recs@.len() <= n,
                recs@.map_values(|p: CommandPoolRecord| record_view(p)) =~= orig.subrange(n - recs@.len(), n),
                steps@.map_values(|c: CleanupStep| step_view(c)) == cleanup_plan(orig.subrange(0, n - recs@.len())),
            decreases recs@.len(),
        {
            let ghost c = n - recs@.len();
            let ghost before = steps@;
            let ghost rv = record_view(recs@[0]);
            let ghost old_recs = recs@;
            assert(recs@.map_values(|p: CommandPoolRecord| record_view(p))[0] == orig[c]);
            let CommandPoolRecord { family: _, pool, buffers } = recs.remove(0);
            steps.push(CleanupStep::FreeBuffers { pool, buffers });
            steps.push(CleanupStep::DestroyPool { pool });
            proof {
                let done = orig.subrange(0, c + 1);
                assert(done.drop_last() =~= orig.subrange(0, c));
                assert(done.last() == orig[c]);
                assert(rv == orig[c]);
                assert(steps@.map_values(|x: CleanupStep| step_view(x)) =~= before.map_values(
                    |x: CleanupStep| step_view(x),
                ).push((false, orig[c].1, orig[c].2)).push((true, orig[c].1, Seq::<u64>::empty())));
                assert forall|k: int| 0 <= k < recs@.len() implies #[trigger] record_view(recs@[k]) == orig[c + 1 + k] by {
                    assert(recs@[k] == old_recs[k + 1]);
                    assert(old_recs.map_values(|p: CommandPoolRecord| record_view(p))[k + 1] == orig.subrange(c, n)[k + 1]);
                }
                assert(recs@.map_values(|p: CommandPoolRecord| record_view(p)) =~= orig.subrange(c + 1, n));
            }
        }
        proof {
            assert(orig.subrange(0, n) =~= orig);
            assert(self.records() =~= Seq::<(u32, u64, Seq<u64>)>::empty());
        }
        steps
    }
}

/// One native call of the shutdown sequence.
pub enum CleanupStep {
    /// Free these command buffers back to the pool.
    FreeBuffers { pool: u64, buffers: Vec<u64> },
    /// Destroy the pool.
    DestroyPool { pool: u64 },
}

/// Whether the step destroys its pool, the pool, and the buffers it frees.
pub open spec fn step_view(c: CleanupStep) -> (bool, u64, Seq<u64>) {
    match c {
        CleanupStep::FreeBuffers { pool, buffers } => (false, pool, buffers@),
        CleanupStep::DestroyPool { pool } => (true, pool, Seq::<u64>::empty()),
    }
}

/// The shutdown sequence for the records: for each pool in turn, free its
/// outstanding buffers, then destroy it.
pub open spec fn cleanup_plan(recs: Seq<(u32, u64, Seq<u64>)>) -> Seq<(bool, u64, Seq<u64>)>
    decreases recs.len(),
{
    if recs.len() == 0 {
        Seq::empty()
    } else {
        cleanup_plan(recs.drop_last()).push((false, recs.last().1, recs.last().2)).push(
            (true, recs.last().1, Seq::<u64>::empty()),
        )
    }
}

proof fn lemma_plan_index(recs: Seq<(u32, u64, Seq<u64>)>)
    ensures
        cleanup_plan(recs).len() == 2 * recs.len(),
        forall|i: int|
            0 <= i < recs.len() ==> cleanup_plan(recs)[2 * i] == (false, (#[trigger] recs[i]).1, recs[i].2)
                && cleanup_plan(recs)[2 * i + 1] == (true, recs[i].1, Seq::<u64>::empty()),
    decreases recs.len(),
{
    if recs.len() > 0 {
        let rest = recs.drop_last();
        lemma_plan_index(rest);
        assert forall|i: int| 0 <= i < recs.len() implies cleanup_plan(recs)[2 * i] == (false, (#[trigger] recs[i]).1, recs[i].2)
            && cleanup_plan(recs)[2 * i + 1] == (true, recs[i].1, Seq::<u64>::empty()) by {
            if i < rest.len() {
                assert(rest[i] == recs[i]);
            }
        }
    }
}

/// Pool cleanup: the shutdown sequence frees every buffer still
/// outstanding in a pool before destroying that pool, destroys every
/// registered pool exactly once and no other handle, and touches no pool
/// after destroying it.
pub proof fn lemma_cleanup_plan(recs: Seq<(u32, u64, Seq<u64>)>)
    requires
        records_wf(recs),
    ensures
        cleanup_plan(recs).len() == 2 * recs.len(),
        forall|i: int|
            0 <= i < recs.len() ==> cleanup_plan(recs)[2 * i] == (false, (#[trigger] recs[i]).1, recs[i].2)
                && cleanup_plan(recs)[2 * i + 1] == (true, recs[i].1, Seq::<u64>::empty()),
        forall|d: int|
            0 <= d < cleanup_plan(recs).len() && (#[trigger] cleanup_plan(recs)[d]).0 ==> exists|i: int|
                0 <= i < recs.len() && recs[i].1 == cleanup_plan(recs)[d].1,
        forall|d1: int, d2: int|
            0 <= d1 < d2 < cleanup_plan(recs).len() && (#[trigger] cleanup_plan(recs)[d1]).0 ==> (
            #[trigger] cleanup_plan(recs)[d2]).1 != cleanup_plan(recs)[d1].1,
{
    lemma_plan_index(recs);
    let plan = cleanup_plan(recs);
    assert forall|d: int| 0 <= d < plan.len() && (#[trigger] plan[d]).0 implies exists|i: int|
        0 <= i < recs.len() && recs[i].1 == plan[d].1 by {
        let i = d / 2;
        assert(recs[i] == recs[i]);
        if d == 2 * i {
            assert(plan[d] == (false, recs[i].1, recs[i].2));
        } else {
            assert(d == 2 * i + 1);
        }
    }
    assert forall|d1: int, d2: int| 0 <= d1 < d2 < plan.len() && (#[trigger] plan[d1]).0 implies (
    #[trigger] plan[d2]).1 != plan[d1].1 by {
        let i1 = d1 / 2;
        let i2 = d2 / 2;
        assert(recs[i1] == recs[i1] && recs[i2] == recs[i2]);
        if d1 == 2 * i1 {
            assert(plan[d1] == (false, recs[i1].1, recs[i1].2));
        }
        assert(d1 == 2 * i1 + 1);
        assert(plan[d1].1 == recs[i1].1);
        assert(i1 < i2);
        if d2 == 2 * i2 {
            assert(plan[d2].1 == recs[i2].1);
        } else {
            assert(plan[d2].1 == recs[i2].1);
        }
        assert(recs[i1].1 != recs[i2].1);
    }
}

} // verus!

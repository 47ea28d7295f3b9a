//! Bookkeeping of the buffer pool: the reader/writer lock of each cached page
//! with its FIFO queue of waiting requests, and the choice of the frame that a
//! page is loaded into. Threads, waiting and file reads belong to the caller:
//! these functions decide, and the caller blocks, wakes and reads as told.
use vstd::prelude::*;
use crate::new_page::NewPage;
use crate::order::compare_bytes;

verus! {

/// Lock state of a cached page. An exclusive lock records its holder.
#[derive(Clone, Copy, Debug, PartialEq, Eq, Structural)]
pub enum LockMode {
    UNLOCKED,
    /// Held by this many readers.
    SHARED(u64),
    /// Held by the thread with this identifier.
    EXCLUSIVE(u64),
}

/// A queued lock request.
#[derive(Clone, Copy, Debug, PartialEq, Eq, Structural)]
pub struct Waiter {
    pub exclusive: bool,
    pub thread_id: u64,
}

/// Whether a lock request was granted at once or queued.
#[derive(Clone, Copy, Debug, PartialEq, Eq, Structural)]
pub enum LockDecision {
    Granted,
    Queued,
}

/// The mode after a shared request, and whether it was granted.
pub open spec fn shared_step(m: LockMode) -> (LockMode, bool) {
    match m {
        LockMode::UNLOCKED => (LockMode::SHARED(1), true),
        LockMode::SHARED(n) => (LockMode::SHARED((n + 1) as u64), true),
        LockMode::EXCLUSIVE(_) => (m, false),
    }
}

/// The mode after an exclusive request by `t`, and whether it was granted.
pub open spec fn exclusive_step(m: LockMode, t: u64) -> (LockMode, bool) {
    match m {
        LockMode::UNLOCKED => (LockMode::EXCLUSIVE(t), true),
        _ => (m, false),
    }
}

/// How many requests at the front of the queue are woken when the page becomes
/// unlocked: the first alone if it is exclusive, else every shared request up to
/// the first exclusive one.
pub open spec fn wake_count(q: Seq<Waiter>) -> nat
    decreases q.len(),
{
    if q.len() == 0 {
        0
    } else if q[0].exclusive {
        1
    } else {
        1 + shared_run(q.drop_first())
    }
}

/// Length of the run of shared requests at the front of `q`.
pub open spec fn shared_run(q: Seq<Waiter>) -> nat
    decreases q.len(),
{
    if q.len() == 0 || q[0].exclusive {
        0
    } else {
        1 + shared_run(q.drop_first())
    }
}

/// One cached page: its bytes, its lock and the requests waiting for it.
pub struct BufferDesc {
    pub mode: LockMode,
    /// Set while the page has been loaded and not yet locked; a pinned or locked
    /// page is not evicted.
    pub is_pinned: bool,
    pub file_name: String,
    pub page: u32,
    pub buff: NewPage,
    pub wait_q: Vec<Waiter>,
}

proof fn lemma_shared_run_bound(q: Seq<Waiter>)
    ensures
        shared_run(q) <= q.len(),
        forall|i: int| 0 <= i < shared_run(q) ==> !(#[trigger] q[i]).exclusive,
        shared_run(q) < q.len() ==> q[shared_run(q) as int].exclusive,
    decreases q.len(),
{
    if q.len() > 0 && !q[0].exclusive {
        let d = q.drop_first();
        lemma_shared_run_bound(d);
        assert forall|i: int| 0 <= i < shared_run(q) implies !(#[trigger] q[i]).exclusive by {
            if i > 0 {
                assert(q[i] == d[i - 1]);
            }
        }
        if shared_run(q) < q.len() {
            assert(q[shared_run(q) as int] == d[shared_run(d) as int]);
        }
    }
}

impl BufferDesc {
    pub fn new(file_name: &str, page: u32, buff: [u8; 8192]) -> (r: Self)
        ensures
            r.mode == LockMode::UNLOCKED,
            r.is_pinned,
            r.file_name@ == file_name@,
            r.page == page,
            r.buff.data == buff,
            r.wait_q@.len() == 0,
    {
        BufferDesc {
            mode: LockMode::UNLOCKED,
            is_pinned: true,
            file_name: file_name.to_string(),
            page,
            buff: NewPage::new(buff),
            wait_q: Vec::new(),
        }
    }

    pub fn get_buff(&self) -> (r: &NewPage)
        ensures
            *r == self.buff,
    {
        &self.buff
    }

    /// Replaces the page's bytes; only the thread holding the exclusive lock may.
    pub fn write_buff(&mut self, new_buff: NewPage, thread_id: u64) -> (r: Result<(), String>)
        ensures
            r is Ok <==> old(self).mode == LockMode::EXCLUSIVE(thread_id),
            r is Ok ==> final(self).buff == new_buff,
            r is Err ==> final(self).buff == old(self).buff,
            final(self).mode == old(self).mode,
            final(self).wait_q@ == old(self).wait_q@,
    {
        match self.mode {
            LockMode::EXCLUSIVE(holder) => if holder == thread_id {
                self.buff = new_buff;
                Ok(())
            } else {
                Err(
                    "Writing failed, tried to do operation from thread which does not hold the lock".to_string(),
                )
            },
            _ => Err("Unexpected operation, lock isn't exclusive".to_string()),
        }
    }

    /// A shared request: granted unless a writer holds the page, else queued.
    pub fn lock_shared(&mut self, thread_id: u64) -> (r: LockDecision)
        requires
            old(self).mode != LockMode::SHARED(u64::MAX),
        ensures
            final(self).mode == shared_step(old(self).mode).0,
            (r == LockDecision::Granted) == shared_step(old(self).mode).1,
            r == LockDecision::Granted ==> final(self).wait_q@ == old(self).wait_q@
                && !final(self).is_pinned,
            r == LockDecision::Queued ==> final(self).wait_q@ == old(self).wait_q@.push(
                Waiter { exclusive: false, thread_id },
            ) && final(self).is_pinned == old(self).is_pinned,
    {
        match self.mode {
            LockMode::UNLOCKED => {
                self.mode = LockMode::SHARED(1);
                self.is_pinned = false;
                LockDecision::Granted
            },
            LockMode::SHARED(count) => {
                self.mode = LockMode::SHARED(count + 1);
                self.is_pinned = false;
                LockDecision::Granted
            },
            LockMode::EXCLUSIVE(_) => {
                self.wait_q.push(Waiter { exclusive: false, thread_id });
                LockDecision::Queued
            },
        }
    }

    /// An exclusive request: granted only on an unlocked page, else queued.
    pub fn lock_exclusive(&mut self, thread_id: u64) -> (r: LockDecision)
        ensures
            final(self).mode == exclusive_step(old(self).mode, thread_id).0,
            (r == LockDecision::Granted) == exclusive_step(old(self).mode, thread_id).1,
            r == LockDecision::Granted ==> final(self).wait_q@ == old(self).wait_q@
                && !final(self).is_pinned,
            r == LockDecision::Queued ==> final(self).wait_q@ == old(self).wait_q@.push(
                Waiter { exclusive: true, thread_id },
            ) && final(self).is_pinned == old(self).is_pinned,
    {
        match self.mode {
            LockMode::UNLOCKED => {
                self.mode = LockMode::EXCLUSIVE(thread_id);
                self.is_pinned = false;
                LockDecision::Granted
            },
            _ => {
                self.wait_q.push(Waiter { exclusive: true, thread_id });
                LockDecision::Queued
            },
        }
    }

    /// A woken request takes the lock; waking into a mode that does not admit it
    /// breaks the locking protocol.
    pub fn resume(&mut self, waiter: Waiter) -> (r: Result<(), String>)
        requires
            old(self).mode != LockMode::SHARED(u64::MAX),
        ensures
            waiter.exclusive ==> (r is Ok <==> old(self).mode == LockMode::UNLOCKED),
            !waiter.exclusive ==> (r is Ok <==> !(old(self).mode is EXCLUSIVE)),
            r is Ok && waiter.exclusive ==> final(self).mode == LockMode::EXCLUSIVE(waiter.thread_id),
            r is Ok && !waiter.exclusive ==> final(self).mode == shared_step(old(self).mode).0,
            r is Err ==> final(self).mode == old(self).mode,
            final(self).wait_q@ == old(self).wait_q@,
    {
        match (waiter.exclusive, self.mode) {
            (true, LockMode::UNLOCKED) => {
                self.mode = LockMode::EXCLUSIVE(waiter.thread_id);
                self.is_pinned = false;
                Ok(())
            },
            (false, LockMode::UNLOCKED) => {
                self.mode = LockMode::SHARED(1);
                self.is_pinned = false;
                Ok(())
            },
            (false, LockMode::SHARED(count)) => {
                self.mode = LockMode::SHARED(count + 1);
                self.is_pinned = false;
                Ok(())
            },
            _ => Err("Unexpected lock mode of buff after thread wake up".to_string()),
        }
    }

    /// Releases one shared hold; the last one unlocks the page and returns the
    /// requests to wake.
    pub fn unlock_shared(&mut self) -> (r: Vec<Waiter>)
        ensures
            old(self).mode == LockMode::SHARED(1) ==> final(self).mode == LockMode::UNLOCKED
                && r@ == old(self).wait_q@.subrange(0, wake_count(old(self).wait_q@) as int)
                && final(self).wait_q@ == old(self).wait_q@.subrange(
                wake_count(old(self).wait_q@) as int,
                old(self).wait_q@.len() as int,
            ),
            (old(self).mode matches LockMode::SHARED(n) && n > 1) ==> final(self).mode
                == LockMode::SHARED((old(self).mode->SHARED_0 - 1) as u64) && r@.len() == 0
                && final(self).wait_q@ == old(self).wait_q@,
            !(old(self).mode is SHARED) || old(self).mode == LockMode::SHARED(0) ==> final(self).mode
                == old(self).mode && r@.len() == 0 && final(self).wait_q@ == old(self).wait_q@,
    {
        match self.mode {
            LockMode::SHARED(count) => {
                if count == 1 {
                    self.mode = LockMode::UNLOCKED;
                    self.notify_waiting_threads_change_in_lock()
                } else if count > 1 {
                    self.mode = LockMode::SHARED(count - 1);
                    Vec::new()
                } else {
                    Vec::new()
                }
            },
            _ => Vec::new(),
        }
    }

    /// Releases the exclusive hold of `thread_id` and returns the requests to wake;
    /// fails unless that thread holds the page exclusively.
    pub fn unlock_exclusive(&mut self, thread_id: u64) -> (r: Result<Vec<Waiter>, String>)
        ensures
            r is Ok <==> old(self).mode == LockMode::EXCLUSIVE(thread_id),
            r matches Ok(w) ==> final(self).mode == LockMode::UNLOCKED && w@ == old(
                self,
            ).wait_q@.subrange(0, wake_count(old(self).wait_q@) as int) && final(self).wait_q@
                == old(self).wait_q@.subrange(
                wake_count(old(self).wait_q@) as int,
                old(self).wait_q@.len() as int,
            ),
            r is Err ==> final(self).mode == old(self).mode && final(self).wait_q@ == old(
                self,
            ).wait_q@,
    {
        match self.mode {
            LockMode::EXCLUSIVE(holder) => if holder == thread_id {
                self.mode = LockMode::UNLOCKED;
                Ok(self.notify_waiting_threads_change_in_lock())
            } else {
                Err("Attempt to unlock a lock not owned by the current thread".to_string())
            },
            _ => Err("Cant unlock exclusive, lock is not that type".to_string()),
        }
    }

    pub fn get_lock_type(&self) -> (r: LockMode)
        ensures
            r == self.mode,
    {
        self.mode
    }

    /// Removes and returns the requests to wake: the first if it is exclusive,
    /// else the run of shared requests at the front.
    fn notify_waiting_threads_change_in_lock(&mut self) -> (r: Vec<Waiter>)
        ensures
            final(self).mode == old(self).mode,
            r@ == old(self).wait_q@.subrange(0, wake_count(old(self).wait_q@) as int),
            final(self).wait_q@ == old(self).wait_q@.subrange(
                wake_count(old(self).wait_q@) as int,
                old(self).wait_q@.len() as int,
            ),
    {
        let ghost q = self.wait_q@;
        if self.wait_q.len() == 0 {
            assert(q.subrange(0, 0) =~= Seq::<Waiter>::empty());
            assert(q.subrange(0, q.len() as int) =~= q);
            return Vec::new();
        }
        let count: usize = if self.wait_q[0].exclusive {
            1
        } else {
            let mut i: usize = 1;
            proof {
                lemma_shared_run_bound(q.drop_first());
            }
            while i < self.wait_q.len() && !self.wait_q[i].exclusive
                invariant
                    1 <= i <= q.len(),
                    self.wait_q@ == q,
                    !q[0].exclusive,
                    i - 1 <= shared_run(q.drop_first()),
                    shared_run(q.drop_first()) <= q.len() - 1,
                    forall|j: int| 0 <= j < shared_run(q.drop_first()) ==> !(#[trigger] q.drop_first()[j]).exclusive,
                    shared_run(q.drop_first()) < q.len() - 1 ==> q.drop_first()[shared_run(q.drop_first()) as int].exclusive,
                decreases q.len() - i,
            {
                assert(q.drop_first()[i - 1] == q[i as int]);
                i += 1;
            }
            proof {
                if i < q.len() {
                    assert(q.drop_first()[i - 1] == q[i as int]);
                }
            }
            i
        };
        let mut woken = self.wait_q.split_off(count);
        core::mem::swap(&mut self.wait_q, &mut woken);
        woken
    }
}

/// What the pool does for a page request.
#[derive(Clone, Copy, Debug, PartialEq, Eq, Structural)]
pub enum PoolAction {
    /// The page is cached in this frame.
    Hit(usize),
    /// There is room: read the page into a new frame.
    Load,
    /// The pool is full: read the page into this frame, replacing its page.
    Evict(usize),
    /// The pool is full and every frame is pinned or locked: wait and ask again.
    Wait,
}

/// A frame can be evicted when it is neither pinned nor locked.
pub open spec fn evictable(d: BufferDesc) -> bool {
    !d.is_pinned && d.mode == LockMode::UNLOCKED
}

/// The descriptor holds page `page` of the file whose name has the bytes `name`.
pub open spec fn holds(d: BufferDesc, name: Seq<u8>, page: u32) -> bool {
    vstd::utf8::encode_utf8(d.file_name@) == name && d.page == page
}

pub struct BuffPool {
    pub max_frames: u32,
    pub descriptors: Vec<BufferDesc>,
}

impl BuffPool {
    /// A pool of `capacity` bytes, by default twenty pages.
    pub fn create(capacity: Option<u32>) -> (r: Result<Self, String>)
        ensures
            r matches Ok(p) && p.max_frames == match capacity {
                Some(c) => c / 8192,
                None => 20,
            } && p.descriptors@.len() == 0,
    {
        let bytes = match capacity {
            Some(c) => c,
            None => 8192 * 20,
        };
        Ok(BuffPool { max_frames: bytes / 8192, descriptors: Vec::new() })
    }

    /// Decides how to serve a request for page `page_number` of `from_file`: the
    /// frame that holds it; else a new frame while there is room; else the first
    /// evictable frame; else wait.
    pub fn get_descriptor_action(&self, from_file: &str, page_number: u32) -> (r: PoolAction)
        ensures
            r matches PoolAction::Hit(i) ==> i < self.descriptors@.len() && holds(
                self.descriptors@[i as int],
                vstd::utf8::encode_utf8(from_file@),
                page_number,
            ),
            !(r is Hit) ==> forall|i: int|
                0 <= i < self.descriptors@.len() ==> !holds(
                    #[trigger] self.descriptors@[i],
                    vstd::utf8::encode_utf8(from_file@),
                    page_number,
                ),
            r is Load <==> !(exists|i: int|
                0 <= i < self.descriptors@.len() && holds(
                    #[trigger] self.descriptors@[i],
                    vstd::utf8::encode_utf8(from_file@),
                    page_number,
                )) && self.descriptors@.len() < self.max_frames,
            r matches PoolAction::Evict(i) ==> i < self.descriptors@.len() && evictable(
                self.descriptors@[i as int],
            ) && self.descriptors@.len() >= self.max_frames && forall|j: int|
                0 <= j < i ==> !evictable(#[trigger] self.descriptors@[j]),
            r is Wait ==> self.descriptors@.len() >= self.max_frames && forall|j: int|
                0 <= j < self.descriptors@.len() ==> !evictable(#[trigger] self.descriptors@[j]),
    {
        let name = from_file.as_bytes();
        let mut i: usize = 0;
        while i < self.descriptors.len()
            invariant
                i <= self.descriptors@.len(),
                name@ == vstd::utf8::encode_utf8(from_file@),
                forall|j: int|
                    0 <= j < i ==> !holds(#[trigger] self.descriptors@[j], name@, page_number),
            decreases self.descriptors@.len() - i,
        {
            let d = &self.descriptors[i];
            if d.page == page_number && compare_bytes(d.file_name.as_str().as_bytes(), name) == 0 {
                return PoolAction::Hit(i);
            }
            i += 1;
        }
        if (self.descriptors.len() as u64) < self.max_frames as u64 {
            return PoolAction::Load;
        }
        let mut j: usize = 0;
        while j < self.descriptors.len()
            invariant
                j <= self.descriptors@.len(),
                self.descriptors@.len() >= self.max_frames,
                forall|k: int|
                    0 <= k < self.descriptors@.len() ==> !holds(
                        #[trigger] self.descriptors@[k],
                        vstd::utf8::encode_utf8(from_file@),
                        page_number,
                    ),
                forall|k: int| 0 <= k < j ==> !evictable(#[trigger] self.descriptors@[k]),
            decreases self.descriptors@.len() - j,
        {
            let d = &self.descriptors[j];
            if !d.is_pinned && d.mode == LockMode::UNLOCKED {
                return PoolAction::Evict(j);
            }
            j += 1;
        }
        PoolAction::Wait
    }

    /// Puts a freshly read descriptor where `action` says; a hit or a wait changes
    /// nothing. The page must not be cached yet, so no page is held twice.
    pub fn install(&mut self, action: PoolAction, desc: BufferDesc) -> (r: Option<usize>)
        requires
            forall|i: int|
                0 <= i < old(self).descriptors@.len() ==> !holds(
                    #[trigger] old(self).descriptors@[i],
                    vstd::utf8::encode_utf8(desc.file_name@),
                    desc.page,
                ),
        ensures
            action is Load ==> r == Some(old(self).descriptors@.len() as usize)
                && final(self).descriptors@ == old(self).descriptors@.push(desc),
            (action matches PoolAction::Evict(i) && i < old(self).descriptors@.len()) ==> r == Some(
                action->Evict_0,
            ) && final(self).descriptors@ == old(self).descriptors@.update(action->Evict_0 as int, desc),
            (action is Hit || action is Wait) ==> r is None && final(self).descriptors@ == old(
                self,
            ).descriptors@,
            final(self).max_frames == old(self).max_frames,
    {
        match action {
            PoolAction::Load => {
                self.descriptors.push(desc);
                Some(self.descriptors.len() - 1)
            },
            PoolAction::Evict(i) => {
                if i < self.descriptors.len() {
                    self.descriptors.set(i, desc);
                    Some(i)
                } else {
                    None
                }
            },
            _ => None,
        }
    }
}

/// Successive shared requests on an unlocked page are all granted, and the page
/// then counts that many readers.
pub proof fn lemma_readers_admitted(n: nat)
    requires
        1 <= n <= u64::MAX,
    ensures
        shared_steps(LockMode::UNLOCKED, n) == (LockMode::SHARED(n as u64), true),
    decreases n,
{
    assert(shared_steps(LockMode::UNLOCKED, 0) == (LockMode::UNLOCKED, true));
    if n > 1 {
        lemma_readers_admitted((n - 1) as nat);
    }
}

/// `n` shared requests in a row: the final mode, and whether all were granted.
pub open spec fn shared_steps(m: LockMode, n: nat) -> (LockMode, bool)
    decreases n,
{
    if n == 0 {
        (m, true)
    } else {
        let (m1, all) = shared_steps(m, (n - 1) as nat);
        let (m2, g) = shared_step(m1);
        (m2, all && g)
    }
}

/// While one thread holds the page exclusively, no other request is granted:
/// neither another exclusive one nor a shared one.
pub proof fn lemma_exclusive_excludes(holder: u64, t: u64)
    ensures
        !exclusive_step(LockMode::EXCLUSIVE(holder), t).1,
        exclusive_step(LockMode::EXCLUSIVE(holder), t).0 == LockMode::EXCLUSIVE(holder),
        !shared_step(LockMode::EXCLUSIVE(holder)).1,
        shared_step(LockMode::EXCLUSIVE(holder)).0 == LockMode::EXCLUSIVE(holder),
{
}

} // verus!

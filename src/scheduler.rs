use vstd::prelude::*;
use futures::task::LocalFutureObj;
use slab::Slab;
use crate::bits::{is_bit_set, iter_set_bits, lemma_zero_has_no_bits};
use crate::waker_page::{WakerPage, WAKER_PAGE_SIZE};

verus! {

/// Declares slab's `Slab`, the slot store, as an opaque type.
#[verifier::external_type_specification]
#[verifier::external_body]
#[verifier::reject_recursive_types(T)]
pub struct ExSlab<T>(Slab<T>);

/// Declares futures' `LocalFutureObj`, the boxed future that a slot holds, as
/// an opaque type.
#[verifier::external_type_specification]
#[verifier::external_body]
#[verifier::reject_recursive_types(T)]
pub struct ExLocalFutureObj<'a, T>(LocalFutureObj<'a, T>);

/// A computation held by a slot.
pub enum Operation {
    /// A short-lived operation of the protocol layer.
    Tcp(LocalFutureObj<'static, ()>),
    /// A long-lived computation of the host.
    Background(LocalFutureObj<'static, ()>),
}

/// What a slot store holds: each occupied key with its computation.
pub uninterp spec fn slab_items(s: Slab<Operation>) -> Map<nat, Operation>;

/// Relies on `Slab::new`: a new slab holds nothing.
#[verifier::external_body]
fn slab_new() -> (slab: Slab<Operation>)
    ensures
        slab_items(slab) =~= Map::empty(),
{
    Slab::new()
}

/// Relies on `Slab::insert`: the value is stored under a key that held nothing,
/// and that key is returned.
#[verifier::external_body]
fn slab_insert(slab: &mut Slab<Operation>, op: Operation) -> (key: usize)
    ensures
        !slab_items(*old(slab)).contains_key(key as nat),
        slab_items(*final(slab)) == slab_items(*old(slab)).insert(key as nat, op),
{
    slab.insert(op)
}

/// Relies on `Slab::remove`: the value under an occupied key is handed back and
/// the key is freed. It panics on a vacant key, which `requires` rules out.
#[verifier::external_body]
fn slab_remove(slab: &mut Slab<Operation>, key: usize) -> (op: Operation)
    requires
        slab_items(*old(slab)).contains_key(key as nat),
    ensures
        op == slab_items(*old(slab))[key as nat],
        slab_items(*final(slab)) == slab_items(*old(slab)).remove(key as nat),
{
    slab.remove(key)
}

/// Relies on `Slab::contains`: whether a value is stored under the key.
#[verifier::external_body]
fn slab_contains(slab: &Slab<Operation>, key: usize) -> (r: bool)
    ensures
        r == slab_items(*slab).contains_key(key as nat),
{
    slab.contains(key)
}

/// Relies on `Slab`'s `IndexMut`: a mutable reference to the value under an
/// occupied key. It panics on a vacant key, which `requires` rules out.
#[verifier::external_body]
fn slab_get_mut(slab: &mut Slab<Operation>, key: usize) -> (op: &mut Operation)
    requires
        slab_items(*old(slab)).contains_key(key as nat),
    ensures
        *op == slab_items(*old(slab))[key as nat],
        slab_items(*final(slab)) == slab_items(*old(slab)).insert(key as nat, *final(op)),
{
    &mut slab[key]
}

/// The page that covers key `k`.
pub open spec fn page_index(k: nat) -> nat {
    k / (WAKER_PAGE_SIZE as nat)
}

/// The position of key `k` within its page.
pub open spec fn subpage_index(k: nat) -> int {
    (k % (WAKER_PAGE_SIZE as nat)) as int
}

/// Two keys with the same page and the same position in it are equal.
proof fn lemma_key_split(k: nat, key: nat)
    requires
        page_index(k) == page_index(key),
        subpage_index(k) == subpage_index(key),
    ensures
        k == key,
{
    assert(k == key) by (nonlinear_arith)
        requires
            k / 64 == key / 64,
            k % 64 == key % 64,
    ;
}
/// The key at position `pos` of page `page_ix`.
proof fn lemma_key_parts(page_ix: nat, pos: nat)
    requires
        pos < 64,
    ensures
        page_index(page_ix * 64 + pos) == page_ix,
        subpage_index(page_ix * 64 + pos) == pos as int,
{
    assert((page_ix * 64 + pos) / 64 == page_ix && (page_ix * 64 + pos) % 64 == pos) by (nonlinear_arith)
        requires
            pos < 64,
    ;
}

/// Every key is made of its page and its position in that page.
proof fn lemma_key_compose(k: nat)
    ensures
        k == page_index(k) * 64 + subpage_index(k),
        0 <= subpage_index(k) < 64,
{
    assert(k == (k / 64) * 64 + k % 64 && k % 64 < 64) by (nonlinear_arith);
}

/// Some entry of `keys` is `k`.
pub open spec fn lists_key(keys: Seq<u64>, k: nat) -> bool {
    exists|j: int| 0 <= j < keys.len() && keys[j] as nat == k
}

/// The well-formedness of `pre` carries over to `post` where they differ at
/// most at key `key`, in its slot and its bits, and `post` keeps the pages and
/// generations of `pre`.
proof fn lemma_wf_one_key(pre: Scheduler, post: Scheduler, key: nat)
    requires
        pre.wf(),
        post.num_pages() == pre.num_pages(),
        post.num_generations() == pre.num_generations(),
        forall|k: nat| k != key ==> #[trigger] post.same_bits(&pre, k),
        forall|k: nat| k != key ==> #[trigger] post.slots().contains_key(k) == pre.slots().contains_key(k),
        post.slots().contains_key(key) ==> pre.slots().contains_key(key),
        post.is_dropped(key) ==> post.slots().contains_key(key),
        post.is_completed(key) ==> post.slots().contains_key(key),
    ensures
        post.wf(),
{
    assert forall|k: nat| #[trigger] post.slots().contains_key(k) implies page_index(k)
        < post.num_pages() && k <= usize::MAX && k < post.num_generations() by {
        assert(pre.slots().contains_key(k));
    }
    assert forall|k: nat| #[trigger] post.is_dropped(k) implies post.slots().contains_key(k) by {
        if k != key {
            assert(post.same_bits(&pre, k));
            assert(pre.slots().contains_key(k));
        }
    }
    assert forall|k: nat| #[trigger] post.is_completed(k) implies post.slots().contains_key(k) by {
        if k != key {
            assert(post.same_bits(&pre, k));
            assert(pre.slots().contains_key(k));
        }
    }
}

/// A caller-held capability over one slot. Its slot is cancelled by giving it
/// back through `Scheduler::release`; `into_raw` gives it up without
/// cancelling, and `Scheduler::take` consumes it with the computation.
pub struct SchedulerHandle {
    key: usize,
}

impl SchedulerHandle {
    /// The key of the slot that this handle refers to.
    pub closed spec fn key(&self) -> nat {
        self.key as nat
    }

    /// Whether the slot of this handle has finished and has not been taken.
    pub fn has_completed(&self, scheduler: &Scheduler) -> (r: bool)
        ensures
            r == scheduler.is_completed(self.key()),
    {
        let key = self.key;
        let page_ix = key / WAKER_PAGE_SIZE;
        if page_ix < scheduler.pages.len() {
            scheduler.pages[page_ix].has_completed(key % WAKER_PAGE_SIZE)
        } else {
            false
        }
    }

    /// Whether the handle of this slot was released and the slot awaits
    /// reclamation; `Scheduler::take` is not allowed then.
    pub fn was_dropped(&self, scheduler: &Scheduler) -> (r: bool)
        ensures
            r == scheduler.is_dropped(self.key()),
    {
        let key = self.key;
        let page_ix = key / WAKER_PAGE_SIZE;
        if page_ix < scheduler.pages.len() {
            scheduler.pages[page_ix].was_dropped(key % WAKER_PAGE_SIZE)
        } else {
            false
        }
    }

    /// Gives up the handle without cancelling its slot, and returns the key.
    pub fn into_raw(self) -> (r: u64)
        ensures
            r as nat == self.key(),
    {
        self.key as u64
    }
}

/// A wake-up for one occupant of a slot: its key, and the generation of that
/// key when the token was made. Reclaiming a slot moves its key to a new
/// generation, so a token of an earlier occupant wakes nobody.
#[derive(Clone, Copy, Debug)]
pub struct WakeToken {
    key: u64,
    generation: u64,
}

impl WakeToken {
    pub closed spec fn key(&self) -> nat {
        self.key as nat
    }

    pub closed spec fn generation(&self) -> nat {
        self.generation as nat
    }

    /// The key that this token wakes.
    pub fn slot_key(&self) -> (r: u64)
        ensures
            r as nat == self.key(),
    {
        self.key
    }
}

/// The slot store, its wake pages, and the generation of each key.
pub struct Scheduler {
    slab: Slab<Operation>,
    pages: Vec<WakerPage>,
    generations: Vec<u64>,
}

impl Scheduler {
    /// The stored computations, by key.
    pub closed spec fn slots(&self) -> Map<nat, Operation> {
        slab_items(self.slab)
    }

    /// How many times key `k` has been reclaimed, counted modulo 2^64.
    pub closed spec fn generation(&self, k: nat) -> nat {
        if k < self.generations@.len() {
            self.generations@[k as int] as nat
        } else {
            0
        }
    }

    /// The number of keys whose generation is recorded.
    pub closed spec fn num_generations(&self) -> nat {
        self.generations@.len()
    }

    /// Every key has the same generation in `self` and in `other`.
    pub open spec fn same_generations(&self, other: &Scheduler) -> bool {
        forall|k: nat| #[trigger] self.generation(k) == other.generation(k)
    }

    /// Token `t` was made for the current occupant of its key.
    pub open spec fn is_current(&self, t: WakeToken) -> bool {
        self.generation(t.key()) == t.generation()
    }

    /// The number of wake pages.
    pub closed spec fn num_pages(&self) -> nat {
        self.pages@.len()
    }

    pub closed spec fn page_at(&self, i: int) -> WakerPage {
        self.pages@[i]
    }

    /// Key `k` has pending work.
    pub open spec fn is_notified(&self, k: nat) -> bool {
        page_index(k) < self.num_pages() && self.page_at(page_index(k) as int).is_notified(
            subpage_index(k),
        )
    }

    /// The handle of key `k` was released and its slot awaits reclamation.
    pub open spec fn is_dropped(&self, k: nat) -> bool {
        page_index(k) < self.num_pages() && self.page_at(page_index(k) as int).is_dropped(
            subpage_index(k),
        )
    }

    /// The computation at key `k` has finished and was not taken.
    pub open spec fn is_completed(&self, k: nat) -> bool {
        page_index(k) < self.num_pages() && self.page_at(page_index(k) as int).is_completed(
            subpage_index(k),
        )
    }

    /// Key `k` is on page `page_ix` and its handle was released: the sweep of
    /// that page reclaims it.
    pub open spec fn swept_by(&self, page_ix: nat, k: nat) -> bool {
        page_index(k) == page_ix && self.is_dropped(k)
    }

    /// Every stored key has a page; only stored keys are dropped or completed.
    pub open spec fn wf(&self) -> bool {
        &&& forall|k: nat| #[trigger]
            self.slots().contains_key(k) ==> page_index(k) < self.num_pages() && k <= usize::MAX
                && k < self.num_generations()
        &&& self.num_pages() * (WAKER_PAGE_SIZE as nat) <= usize::MAX + 1
        &&& forall|k: nat| #[trigger] self.is_dropped(k) ==> self.slots().contains_key(k)
        &&& forall|k: nat| #[trigger] self.is_completed(k) ==> self.slots().contains_key(k)
    }

    /// A scheduler with no slots and no pages.
    pub fn new() -> (r: Scheduler)
        ensures
            r.wf(),
            r.slots() =~= Map::empty(),
            r.num_pages() == 0,
    {
        Scheduler { slab: slab_new(), pages: Vec::new(), generations: Vec::new() }
    }

    /// Key `k` has the same three bits in `self` and in `other`.
    pub open spec fn same_bits(&self, other: &Scheduler, k: nat) -> bool {
        &&& self.is_notified(k) == other.is_notified(k)
        &&& self.is_dropped(k) == other.is_dropped(k)
        &&& self.is_completed(k) == other.is_completed(k)
    }

    /// Stores `op` under a fresh key, adds pages until one covers that key, and
    /// marks the new slot notified, so that the next pass polls it.
    pub fn insert(&mut self, op: Operation) -> (h: SchedulerHandle)
        requires
            old(self).wf(),
        ensures
            final(self).wf(),
            !old(self).slots().contains_key(h.key()),
            final(self).slots() == old(self).slots().insert(h.key(), op),
            final(self).is_notified(h.key()),
            !final(self).is_dropped(h.key()),
            !final(self).is_completed(h.key()),
            forall|k: nat| k != h.key() ==> #[trigger] final(self).same_bits(old(self), k),
            final(self).same_generations(old(self)),
            final(self).num_pages() == if page_index(h.key()) < old(self).num_pages() {
                old(self).num_pages()
            } else {
                page_index(h.key()) + 1
            },
            forall|i: int|
                0 <= i < old(self).num_pages() && i != page_index(h.key())
                    ==> #[trigger] final(self).page_at(i) == old(self).page_at(i),
    {
        let ghost pre = *self;
        let key = slab_insert(&mut self.slab, op);
        let ghost stored = self.slab;
        let page_ix = key / WAKER_PAGE_SIZE;
        while self.pages.len() <= page_ix
            invariant
                self.slab == stored,
                self.generations == old(self).generations,
                old(self).pages@.len() <= self.pages@.len(),
                self.pages@.len() <= page_ix + 1 || self.pages@.len() == old(self).pages@.len(),
                forall|i: int| 0 <= i < old(self).pages@.len() ==> self.pages@[i] == old(self).pages@[i],
                forall|i: int|
                    old(self).pages@.len() <= i < self.pages@.len() ==> self.pages@[i].notified_bits() == 0
                        && self.pages@[i].dropped_bits() == 0 && self.pages@[i].completed_bits() == 0,
            decreases page_ix + 1 - self.pages@.len(),
        {
            self.pages.push(WakerPage::new());
        }
        let ghost pages_grown = self.pages@;
        while self.generations.len() <= key
            invariant
                self.slab == stored,
                self.pages@ == pages_grown,
                old(self).generations@.len() <= self.generations@.len(),
                forall|i: int|
                    0 <= i < old(self).generations@.len() ==> self.generations@[i] == old(self).generations@[i],
                forall|i: int|
                    old(self).generations@.len() <= i < self.generations@.len() ==> self.generations@[i] == 0,
            decreases key + 1 - self.generations@.len(),
        {
            self.generations.push(0);
        }
        let ix = key % WAKER_PAGE_SIZE;
        let mut page = self.pages[page_ix];
        page.initialize(ix);
        self.pages.set(page_ix, page);
        let h = SchedulerHandle { key };
        proof {
            lemma_zero_has_no_bits();
            assert(page_index(h.key()) == page_ix as nat);
            assert(subpage_index(h.key()) == ix as int);
            assert forall|k: nat| k != h.key() implies #[trigger] self.same_bits(&pre, k) by {
                if page_index(k) == page_ix as nat {
                    assert(subpage_index(k) != ix as int) by (nonlinear_arith)
                        requires
                            k != key as nat,
                            page_index(k) == page_ix as nat,
                            page_ix == key / 64,
                            ix == key % 64,
                            subpage_index(k) == (k % 64) as int,
                            page_index(k) == k / 64,
                    ;
                }
            }
            assert(self.num_pages() * 64 <= usize::MAX + 1) by (nonlinear_arith)
                requires
                    self.num_pages() <= page_ix + 1 || self.num_pages() == pre.num_pages(),
                    pre.num_pages() * 64 <= usize::MAX + 1,
                    page_ix == key / 64,
                    key <= usize::MAX,
            ;
            assert forall|k: nat| #[trigger] self.slots().contains_key(k) implies page_index(k)
                < self.num_pages() && k <= usize::MAX && k < self.generations@.len() by {
                if k != h.key() {
                    assert(pre.slots().contains_key(k));
                }
            }
            assert forall|k: nat| #[trigger] self.is_dropped(k) implies self.slots().contains_key(k) by {
                assert(self.same_bits(&pre, k));
            }
            assert forall|k: nat| #[trigger] self.is_completed(k) implies self.slots().contains_key(k) by {
                assert(self.same_bits(&pre, k));
            }
        }
        h
    }

    /// Writes back `page` as page `page_ix`, where it differs from the page there
    /// at most at position `ix`.
    fn set_page(&mut self, page_ix: usize, ix: usize, page: WakerPage)
        requires
            page_ix < old(self).pages@.len(),
            ix < WAKER_PAGE_SIZE,
            forall|j: int| j != ix ==> #[trigger] page.is_notified(j) == old(self).pages@[page_ix as int].is_notified(j),
            forall|j: int| j != ix ==> #[trigger] page.is_dropped(j) == old(self).pages@[page_ix as int].is_dropped(j),
            forall|j: int| j != ix ==> #[trigger] page.is_completed(j) == old(self).pages@[page_ix as int].is_completed(j),
        ensures
            final(self).slab == old(self).slab,
            final(self).generations == old(self).generations,
            final(self).num_pages() == old(self).num_pages(),
            final(self).pages@[page_ix as int] == page,
            forall|k: nat| page_index(k) != page_ix || subpage_index(k) != ix ==> #[trigger] final(self).same_bits(old(self), k),
    {
        self.pages.set(page_ix, page);
    }

    /// Moves key `key` to its next generation.
    fn bump_generation(&mut self, key: usize)
        requires
            key < old(self).generations@.len(),
        ensures
            final(self).slab == old(self).slab,
            final(self).pages == old(self).pages,
            final(self).generations@.len() == old(self).generations@.len(),
            final(self).generation(key as nat) != old(self).generation(key as nat),
            forall|k: nat| k != key ==> #[trigger] final(self).generation(k) == old(self).generation(k),
    {
        let g = self.generations[key];
        let next: u64 = if g == u64::MAX {
            0
        } else {
            g + 1
        };
        self.generations.set(key, next);
    }

    /// Takes the computation of `handle`'s slot out of the store and frees its
    /// key. The slot must still be stored and must not have been dropped.
    pub fn take(&mut self, handle: SchedulerHandle) -> (op: Operation)
        requires
            old(self).wf(),
            old(self).slots().contains_key(handle.key()),
            !old(self).is_dropped(handle.key()),
        ensures
            final(self).wf(),
            final(self).num_pages() == old(self).num_pages(),
            op == old(self).slots()[handle.key()],
            final(self).slots() == old(self).slots().remove(handle.key()),
            !final(self).is_notified(handle.key()),
            !final(self).is_dropped(handle.key()),
            !final(self).is_completed(handle.key()),
            forall|k: nat| k != handle.key() ==> #[trigger] final(self).same_bits(old(self), k),
            final(self).generation(handle.key()) != old(self).generation(handle.key()),
            forall|k: nat| k != handle.key() ==> #[trigger] final(self).generation(k) == old(self).generation(k),
    {
        let key = handle.key;
        let page_ix = key / WAKER_PAGE_SIZE;
        let ix = key % WAKER_PAGE_SIZE;
        self.bump_generation(key);
        let ghost bumped = *self;
        let op = slab_remove(&mut self.slab, key);
        let ghost removed = *self;
        let mut page = self.pages[page_ix];
        page.clear(ix);
        self.set_page(page_ix, ix, page);
        proof {
            assert forall|k: nat| k != handle.key() implies #[trigger] self.generation(k) == old(self).generation(k) by {
                assert(bumped.generation(k) == old(self).generation(k));
            }
            assert forall|k: nat| k != handle.key() implies #[trigger] self.same_bits(old(self), k) by {
                assert(removed.same_bits(old(self), k));
                if page_index(k) == page_ix as nat && subpage_index(k) == ix as int {
                    lemma_key_split(k, handle.key());
                }
                assert(self.same_bits(&removed, k));
            }
            assert(page_index(handle.key()) == page_ix as nat);
            assert(subpage_index(handle.key()) == ix as int);
            lemma_wf_one_key(*old(self), *self, handle.key());
        }
        op
    }

    /// A handle for a key obtained from `SchedulerHandle::into_raw`, or `None`
    /// where no computation is stored under that key.
    pub fn from_raw_handle(&self, key: u64) -> (r: Option<SchedulerHandle>)
        requires
            self.wf(),
        ensures
            r.is_some() == self.slots().contains_key(key as nat),
            r.is_some() ==> r.unwrap().key() == key as nat,
    {
        if key > usize::MAX as u64 {
            return None;
        }
        let k = key as usize;
        if slab_contains(&self.slab, k) {
            Some(SchedulerHandle { key: k })
        } else {
            None
        }
    }

    /// A wake token for the current occupant of `key`, or `None` where no
    /// computation is stored under that key.
    pub fn wake_token(&self, key: u64) -> (r: Option<WakeToken>)
        requires
            self.wf(),
        ensures
            r.is_some() == self.slots().contains_key(key as nat),
            r.is_some() ==> r.unwrap().key() == key as nat && self.is_current(r.unwrap()),
    {
        if key > usize::MAX as u64 {
            return None;
        }
        let k = key as usize;
        if slab_contains(&self.slab, k) {
            assert(self.slots().contains_key(k as nat));
            Some(WakeToken { key, generation: self.generations[k] })
        } else {
            None
        }
    }

    /// Gives up `handle`, cancelling its slot: a stored slot is marked dropped
    /// and is reclaimed by the next sweep of its page.
    pub fn release(&mut self, handle: SchedulerHandle)
        requires
            old(self).wf(),
        ensures
            final(self).wf(),
            final(self).num_pages() == old(self).num_pages(),
            final(self).same_generations(old(self)),
            final(self).slots() == old(self).slots(),
            final(self).is_dropped(handle.key()) == (old(self).is_dropped(handle.key())
                || old(self).slots().contains_key(handle.key())),
            final(self).is_notified(handle.key()) == old(self).is_notified(handle.key()),
            final(self).is_completed(handle.key()) == old(self).is_completed(handle.key()),
            forall|k: nat| k != handle.key() ==> #[trigger] final(self).same_bits(old(self), k),
    {
        let key = handle.key;
        if slab_contains(&self.slab, key) {
            assert(self.slots().contains_key(key as nat));
            let page_ix = key / WAKER_PAGE_SIZE;
            let ix = key % WAKER_PAGE_SIZE;
            let mut page = self.pages[page_ix];
            page.mark_dropped(ix);
            self.set_page(page_ix, ix, page);
            proof {
                assert forall|k: nat| k != handle.key() implies #[trigger] self.same_bits(old(self), k) by {
                    if page_index(k) == page_ix as nat && subpage_index(k) == ix as int {
                        lemma_key_split(k, handle.key());
                    }
                }
                assert(page_index(handle.key()) == page_ix as nat);
                assert(subpage_index(handle.key()) == ix as int);
                lemma_wf_one_key(*old(self), *self, handle.key());
            }
        }
    }

    /// Delivers a wake-up: where `token` was made for the current occupant of
    /// its key, that key's notified bit is set, so that the next pass polls it.
    /// A token of an earlier occupant changes nothing. No other bit changes.
    pub fn notify(&mut self, token: WakeToken)
        requires
            old(self).wf(),
        ensures
            final(self).wf(),
            final(self).slots() == old(self).slots(),
            final(self).num_pages() == old(self).num_pages(),
            final(self).same_generations(old(self)),
            final(self).is_notified(token.key()) == (old(self).is_notified(token.key()) || (page_index(token.key())
                < old(self).num_pages() && old(self).is_current(token))),
            final(self).is_dropped(token.key()) == old(self).is_dropped(token.key()),
            final(self).is_completed(token.key()) == old(self).is_completed(token.key()),
            forall|k: nat| k != token.key() ==> #[trigger] final(self).same_bits(old(self), k),
    {
        let key = token.key;
        let current = if key < self.generations.len() as u64 {
            self.generations[key as usize] == token.generation
        } else {
            token.generation == 0
        };
        let page_ix = key / (WAKER_PAGE_SIZE as u64);
        if current && page_ix < self.pages.len() as u64 {
            let page_ix = page_ix as usize;
            let ix = (key % (WAKER_PAGE_SIZE as u64)) as usize;
            let mut page = self.pages[page_ix];
            page.mark_notified(ix);
            self.set_page(page_ix, ix, page);
            proof {
                assert(self.pages@[page_ix as int].dropped_bits() == old(self).pages@[page_ix as int].dropped_bits());
                assert(self.pages@[page_ix as int].completed_bits() == old(self).pages@[page_ix as int].completed_bits());
                assert forall|k: nat| k != key implies #[trigger] self.same_bits(old(self), k) by {
                    if page_index(k) == page_ix as nat && subpage_index(k) == ix as int {
                        lemma_key_split(k, key as nat);
                    }
                }
                assert(page_index(key as nat) == page_ix as nat);
                assert(subpage_index(key as nat) == ix as int);
                assert(old(self).is_dropped(key as nat) ==> old(self).slots().contains_key(key as nat));
                assert(old(self).is_completed(key as nat) ==> old(self).slots().contains_key(key as nat));
                lemma_wf_one_key(*old(self), *self, key as nat);
            }
        }
    }

    /// Records that the computation stored under `key` reported completion.
    pub fn complete(&mut self, key: u64)
        requires
            old(self).wf(),
            old(self).slots().contains_key(key as nat),
        ensures
            final(self).wf(),
            final(self).num_pages() == old(self).num_pages(),
            final(self).same_generations(old(self)),
            final(self).slots() == old(self).slots(),
            final(self).is_completed(key as nat),
            final(self).is_notified(key as nat) == old(self).is_notified(key as nat),
            final(self).is_dropped(key as nat) == old(self).is_dropped(key as nat),
            forall|k: nat| k != key ==> #[trigger] final(self).same_bits(old(self), k),
    {
        let k0 = key as usize;
        let page_ix = k0 / WAKER_PAGE_SIZE;
        let ix = k0 % WAKER_PAGE_SIZE;
        let mut page = self.pages[page_ix];
        page.mark_completed(ix);
        self.set_page(page_ix, ix, page);
        proof {
            assert forall|k: nat| k != key implies #[trigger] self.same_bits(old(self), k) by {
                if page_index(k) == page_ix as nat && subpage_index(k) == ix as int {
                    lemma_key_split(k, key as nat);
                }
            }
            assert(page_index(key as nat) == page_ix as nat);
            assert(subpage_index(key as nat) == ix as int);
            lemma_wf_one_key(*old(self), *self, key as nat);
        }
    }

    /// The computation stored under `key`, to be polled in place.
    pub fn slot_mut(&mut self, key: u64) -> (op: &mut Operation)
        requires
            old(self).wf(),
            old(self).slots().contains_key(key as nat),
        ensures
            *op == old(self).slots()[key as nat],
            final(self).slots() == old(self).slots().insert(key as nat, *final(op)),
            final(self).same_generations(old(self)),
            final(self).num_pages() == old(self).num_pages(),
            forall|k: nat| #[trigger] final(self).same_bits(old(self), k),
    {
        slab_get_mut(&mut self.slab, key as usize)
    }

    /// Takes and clears the notified bitmap of page `page_ix`, and returns the
    /// stored keys that it named, in ascending order: the slots to poll in this
    /// pass. A slot notified again while it is polled waits for the next pass.
    pub fn take_notified_keys(&mut self, page_ix: usize) -> (r: Vec<u64>)
        requires
            old(self).wf(),
            page_ix < old(self).num_pages(),
        ensures
            final(self).wf(),
            final(self).same_generations(old(self)),
            final(self).slots() == old(self).slots(),
            final(self).num_pages() == old(self).num_pages(),
            forall|k: nat| #[trigger] final(self).is_notified(k) == (page_index(k) != page_ix
                && old(self).is_notified(k)),
            forall|k: nat| #[trigger] final(self).is_dropped(k) == old(self).is_dropped(k),
            forall|k: nat| #[trigger] final(self).is_completed(k) == old(self).is_completed(k),
            forall|a: int, b: int| 0 <= a < b < r@.len() ==> r@[a] < r@[b],
            forall|a: int|
                0 <= a < r@.len() ==> page_index(#[trigger] r@[a] as nat) == page_ix
                    && old(self).is_notified(r@[a] as nat) && old(self).slots().contains_key(
                    r@[a] as nat,
                ),
            forall|k: nat|
                page_index(k) == page_ix && old(self).is_notified(k) && old(self).slots().contains_key(
                    k,
                ) ==> #[trigger] r@.contains(k as u64),
    {
        let mut page = self.pages[page_ix];
        let bits = page.take_notified();
        self.pages.set(page_ix, page);
        let ghost mid = *self;
        proof {
            assert forall|k: nat| #[trigger] self.is_notified(k) == (page_index(k) != page_ix
                && old(self).is_notified(k)) by {}
            assert forall|k: nat| #[trigger] self.is_dropped(k) == old(self).is_dropped(k) by {}
            assert forall|k: nat| #[trigger] self.is_completed(k) == old(self).is_completed(k) by {}
            assert forall|k: nat| #[trigger] self.slots().contains_key(k) implies page_index(k)
                < self.num_pages() && k <= usize::MAX && k < self.generations@.len() by {
                assert(old(self).slots().contains_key(k));
            }
            assert(self.wf());
            assert(self.num_pages() * 64 <= usize::MAX + 1);
            assert(page_ix * 64 + 63 <= usize::MAX) by (nonlinear_arith)
                requires
                    page_ix < self.num_pages(),
                    self.num_pages() * 64 <= usize::MAX + 1,
            ;
        }
        let positions = iter_set_bits(bits);
        let mut keys: Vec<u64> = Vec::new();
        let mut i: usize = 0;
        while i < positions.len()
            invariant
                *self == mid,
                self.slots() == old(self).slots(),
                page_ix < old(self).pages@.len(),
                0 <= i <= positions@.len(),
                page_ix * 64 + 63 <= usize::MAX,
                bits == old(self).pages@[page_ix as int].notified_bits(),
                forall|a: int, b: int| 0 <= a < b < positions@.len() ==> positions@[a] < positions@[b],
                forall|a: int| 0 <= a < positions@.len() ==> is_bit_set(bits, positions@[a] as int),
                forall|a: int, b: int| 0 <= a < b < keys@.len() ==> keys@[a] < keys@[b],
                forall|a: int, b: int|
                    0 <= a < keys@.len() && i <= b < positions@.len() ==> keys@[a] < page_ix * 64
                        + positions@[b],
                forall|a: int|
                    0 <= a < keys@.len() ==> page_index(#[trigger] keys@[a] as nat) == page_ix
                        && old(self).is_notified(keys@[a] as nat) && old(self).slots().contains_key(
                        keys@[a] as nat,
                    ),
                forall|b: int|
                    0 <= b < i && old(self).slots().contains_key((page_ix * 64 + positions@[b]) as nat)
                        ==> keys@.contains((page_ix * 64 + positions@[b]) as u64),
            decreases positions@.len() - i,
        {
            let pos = positions[i];
            let key = page_ix * WAKER_PAGE_SIZE + pos;
            proof {
                lemma_key_parts(page_ix as nat, pos as nat);
            }
            if slab_contains(&self.slab, key) {
                let ghost prev = keys@;
                keys.push(key as u64);
                proof {
                    assert(is_bit_set(bits, pos as int));
                    assert(old(self).is_notified(key as nat));
                    assert(old(self).slots().contains_key(key as nat));
                    assert(page_index(key as nat) == page_ix);
                    assert forall|a: int| 0 <= a < keys@.len() implies page_index(
                        #[trigger] keys@[a] as nat,
                    ) == page_ix && old(self).is_notified(keys@[a] as nat)
                        && old(self).slots().contains_key(keys@[a] as nat) by {
                        if a < prev.len() {
                            assert(keys@[a] == prev[a]);
                        }
                    }
                    assert forall|b: int|
                        0 <= b < i + 1 && old(self).slots().contains_key((page_ix * 64 + positions@[b]) as nat)
                            implies keys@.contains((page_ix * 64 + positions@[b]) as u64) by {
                        if b < i {
                            let w = (page_ix * 64 + positions@[b]) as u64;
                            assert(prev.contains(w));
                            let c = choose|c: int| 0 <= c < prev.len() && prev[c] == w;
                            assert(keys@[c] == w);
                        } else {
                            assert(keys@[prev.len() as int] == key as u64);
                        }
                    }
                    assert forall|a: int, b: int|
                        0 <= a < keys@.len() && i + 1 <= b < positions@.len() implies keys@[a]
                            < page_ix * 64 + positions@[b] by {
                        if a < prev.len() {
                            assert(keys@[a] == prev[a]);
                        }
                    }
                }
            }
            i = i + 1;
        }
        proof {
            assert forall|k: nat|
                page_index(k) == page_ix && old(self).is_notified(k) && old(self).slots().contains_key(
                    k,
                ) implies #[trigger] keys@.contains(k as u64) by {
                lemma_key_compose(k);
                let pos = subpage_index(k);
                assert(is_bit_set(bits, pos));
                assert(positions@.contains(pos as usize));
                let b = choose|b: int| 0 <= b < positions@.len() && positions@[b] == pos as usize;
                assert(page_ix * 64 + positions@[b] == k);
            }
        }
        keys
    }

    /// Takes and clears the dropped bitmap of page `page_ix`, removes the slots
    /// that it named from the store and clears their bits, freeing their keys.
    pub fn sweep_dropped(&mut self, page_ix: usize)
        requires
            old(self).wf(),
            page_ix < old(self).num_pages(),
        ensures
            final(self).wf(),
            final(self).num_pages() == old(self).num_pages(),
            forall|k: nat| #[trigger] final(self).slots().contains_key(k) == (old(self).slots().contains_key(k)
                && !old(self).swept_by(page_ix as nat, k)),
            forall|k: nat| #[trigger] final(self).slots().contains_key(k) ==> final(self).slots()[k] == old(self).slots()[k],
            forall|k: nat| #[trigger] final(self).is_dropped(k) == (page_index(k) != page_ix && old(self).is_dropped(k)),
            forall|k: nat| #[trigger] final(self).is_notified(k) == (old(self).is_notified(k) && !old(self).swept_by(page_ix as nat, k)),
            forall|k: nat| #[trigger] final(self).is_completed(k) == (old(self).is_completed(k) && !old(self).swept_by(page_ix as nat, k)),
            forall|k: nat| old(self).swept_by(page_ix as nat, k) ==> #[trigger] final(self).generation(k) != old(self).generation(k),
            forall|k: nat| !old(self).swept_by(page_ix as nat, k) ==> #[trigger] final(self).generation(k) == old(self).generation(k),
    {
        let mut page = self.pages[page_ix];
        let bits = page.take_dropped();
        self.pages.set(page_ix, page);
        proof {
            let n = old(self).num_pages();
            assert(page_ix * 64 + 63 <= usize::MAX) by (nonlinear_arith)
                requires
                    page_ix < n,
                    n * 64 <= usize::MAX + 1,
            ;
        }
        let positions = iter_set_bits(bits);
        let mut i: usize = 0;
        while i < positions.len()
            invariant
                page_ix < old(self).pages@.len(),
                page_ix * 64 + 63 <= usize::MAX,
                self.num_pages() == old(self).num_pages(),
                bits == old(self).pages@[page_ix as int].dropped_bits(),
                0 <= i <= positions@.len(),
                forall|a: int, b: int| 0 <= a < b < positions@.len() ==> positions@[a] < positions@[b],
                forall|a: int| 0 <= a < positions@.len() ==> is_bit_set(bits, positions@[a] as int),
                forall|j: int| is_bit_set(bits, j) ==> positions@.contains(j as usize),
                old(self).wf(),
                self.num_generations() == old(self).num_generations(),
                forall|k: nat| (old(self).swept_by(page_ix as nat, k) && (i < positions@.len() ==> subpage_index(k) < positions@[i as int]))
                    ==> #[trigger] self.generation(k) != old(self).generation(k),
                forall|k: nat| !(old(self).swept_by(page_ix as nat, k) && (i < positions@.len() ==> subpage_index(k) < positions@[i as int]))
                    ==> #[trigger] self.generation(k) == old(self).generation(k),
                forall|k: nat| #[trigger] self.slots().contains_key(k) == (old(self).slots().contains_key(k)
                    && !(old(self).swept_by(page_ix as nat, k) && (i < positions@.len() ==> subpage_index(k) < positions@[i as int]))),
                forall|k: nat| #[trigger] self.slots().contains_key(k) ==> self.slots()[k] == old(self).slots()[k],
                forall|k: nat| #[trigger] self.is_dropped(k) == (page_index(k) != page_ix && old(self).is_dropped(k)),
                forall|k: nat| #[trigger] self.is_notified(k) == (old(self).is_notified(k)
                    && !(old(self).swept_by(page_ix as nat, k) && (i < positions@.len() ==> subpage_index(k) < positions@[i as int]))),
                forall|k: nat| #[trigger] self.is_completed(k) == (old(self).is_completed(k)
                    && !(old(self).swept_by(page_ix as nat, k) && (i < positions@.len() ==> subpage_index(k) < positions@[i as int]))),
            decreases positions@.len() - i,
        {
            let pos = positions[i];
            let key = page_ix * WAKER_PAGE_SIZE + pos;
            let ghost before = *self;
            proof {
                lemma_key_parts(page_ix as nat, pos as nat);
                assert(old(self).is_dropped(key as nat));
                assert(old(self).slots().contains_key(key as nat));
                assert(self.slots().contains_key(key as nat));
            }
            slab_remove(&mut self.slab, key);
            self.bump_generation(key);
            let ghost removed = *self;
            let mut page = self.pages[page_ix];
            page.clear(pos);
            self.set_page(page_ix, pos, page);
            proof {
                assert forall|k: nat| page_index(k) != page_ix || subpage_index(k) != pos implies
                    #[trigger] self.same_bits(&before, k) by {
                    assert(removed.same_bits(&before, k));
                    assert(self.same_bits(&removed, k));
                }
                assert forall|k: nat| old(self).swept_by(page_ix as nat, k) && subpage_index(k) > pos as int
                    && (i + 1 < positions@.len() ==> subpage_index(k) < positions@[i + 1]) implies false by {
                    lemma_key_compose(k);
                    let sp = subpage_index(k);
                    assert(is_bit_set(bits, sp));
                    assert(positions@.contains(sp as usize));
                    let c = choose|c: int| 0 <= c < positions@.len() && positions@[c] == sp as usize;
                    if c <= i as int {
                        if c < i as int {
                            assert(positions@[c] < positions@[i as int]);
                        }
                    } else {
                        if c > i + 1 {
                            assert(positions@[i + 1] < positions@[c]);
                        }
                    }
                }
                assert forall|k: nat| #[trigger] self.slots().contains_key(k) == (old(self).slots().contains_key(k)
                    && !(old(self).swept_by(page_ix as nat, k) && (i + 1 < positions@.len() ==> subpage_index(k) < positions@[i + 1]))) by {
                    if k == key as nat {
                    } else {
                        assert(before.slots().contains_key(k) == self.slots().contains_key(k));
                        if page_index(k) == page_ix as nat && subpage_index(k) == pos as int {
                            lemma_key_split(k, key as nat);
                        }
                        if i + 1 < positions@.len() {
                            assert(positions@[i as int] < positions@[i + 1]);
                        }
                    }
                }
                assert forall|k: nat| (old(self).swept_by(page_ix as nat, k) && (i + 1 < positions@.len() ==> subpage_index(k) < positions@[i + 1]))
                    implies #[trigger] self.generation(k) != old(self).generation(k) by {
                    if k != key as nat {
                        assert(removed.generation(k) == before.generation(k));
                        if page_index(k) == page_ix as nat && subpage_index(k) == pos as int {
                            lemma_key_split(k, key as nat);
                        }
                        if i + 1 < positions@.len() {
                            assert(positions@[i as int] < positions@[i + 1]);
                        }
                    } else {
                        assert(removed.generation(k) != before.generation(k));
                        assert(!(subpage_index(k) < positions@[i as int]));
                    }
                }
                assert forall|k: nat| !(old(self).swept_by(page_ix as nat, k) && (i + 1 < positions@.len() ==> subpage_index(k) < positions@[i + 1]))
                    implies #[trigger] self.generation(k) == old(self).generation(k) by {
                    if k != key as nat {
                        assert(removed.generation(k) == before.generation(k));
                        if i + 1 < positions@.len() {
                            assert(positions@[i as int] < positions@[i + 1]);
                        }
                    }
                }
                assert forall|k: nat| #[trigger] self.slots().contains_key(k) implies self.slots()[k] == old(self).slots()[k] by {
                    assert(before.slots().contains_key(k));
                }
                assert forall|k: nat| #[trigger] self.is_dropped(k) == (page_index(k) != page_ix && old(self).is_dropped(k)) by {
                    if page_index(k) != page_ix || subpage_index(k) != pos {
                        assert(self.same_bits(&before, k));
                    }
                }
                assert forall|k: nat| #[trigger] self.is_notified(k) == (old(self).is_notified(k)
                    && !(old(self).swept_by(page_ix as nat, k) && (i + 1 < positions@.len() ==> subpage_index(k) < positions@[i + 1]))) by {
                    if page_index(k) != page_ix || subpage_index(k) != pos {
                        assert(self.same_bits(&before, k));
                        if i + 1 < positions@.len() {
                            assert(positions@[i as int] < positions@[i + 1]);
                        }
                    } else {
                        lemma_key_split(k, key as nat);
                    }
                }
                assert forall|k: nat| #[trigger] self.is_completed(k) == (old(self).is_completed(k)
                    && !(old(self).swept_by(page_ix as nat, k) && (i + 1 < positions@.len() ==> subpage_index(k) < positions@[i + 1]))) by {
                    if page_index(k) != page_ix || subpage_index(k) != pos {
                        assert(self.same_bits(&before, k));
                        if i + 1 < positions@.len() {
                            assert(positions@[i as int] < positions@[i + 1]);
                        }
                    } else {
                        lemma_key_split(k, key as nat);
                    }
                }
            }
            i = i + 1;
        }
        proof {
            assert forall|k: nat| #[trigger] self.slots().contains_key(k) implies page_index(k)
                < self.num_pages() && k <= usize::MAX && k < self.generations@.len() by {
                assert(old(self).slots().contains_key(k));
            }
            assert forall|k: nat| #[trigger] self.is_dropped(k) implies self.slots().contains_key(k) by {
                assert(old(self).slots().contains_key(k));
            }
            assert forall|k: nat| #[trigger] self.is_completed(k) implies self.slots().contains_key(k) by {
                assert(old(self).slots().contains_key(k));
            }
        }
    }

    /// Sweeps every page in page order, as `sweep_dropped` does for one: every
    /// key whose handle was released leaves the store with its bits cleared and
    /// its key moved to a new generation; nothing else changes.
    pub fn sweep_all_dropped(&mut self)
        requires
            old(self).wf(),
        ensures
            final(self).wf(),
            final(self).num_pages() == old(self).num_pages(),
            forall|k: nat| #[trigger] final(self).slots().contains_key(k) == (old(self).slots().contains_key(k)
                && !old(self).is_dropped(k)),
            forall|k: nat| #[trigger] final(self).slots().contains_key(k) ==> final(self).slots()[k] == old(self).slots()[k],
            forall|k: nat| !#[trigger] final(self).is_dropped(k),
            forall|k: nat| #[trigger] final(self).is_notified(k) == (old(self).is_notified(k) && !old(self).is_dropped(k)),
            forall|k: nat| #[trigger] final(self).is_completed(k) == (old(self).is_completed(k) && !old(self).is_dropped(k)),
            forall|k: nat| old(self).is_dropped(k) ==> #[trigger] final(self).generation(k) != old(self).generation(k),
            forall|k: nat| !old(self).is_dropped(k) ==> #[trigger] final(self).generation(k) == old(self).generation(k),
    {
        let n = self.pages.len();
        let mut p: usize = 0;
        while p < n
            invariant
                n == old(self).num_pages(),
                0 <= p <= n,
                self.wf(),
                self.num_pages() == old(self).num_pages(),
                forall|k: nat| #[trigger] self.slots().contains_key(k) == (old(self).slots().contains_key(k)
                    && !(old(self).is_dropped(k) && page_index(k) < p)),
                forall|k: nat| #[trigger] self.slots().contains_key(k) ==> self.slots()[k] == old(self).slots()[k],
                forall|k: nat| #[trigger] self.is_dropped(k) == (old(self).is_dropped(k) && page_index(k) >= p),
                forall|k: nat| #[trigger] self.is_notified(k) == (old(self).is_notified(k)
                    && !(old(self).is_dropped(k) && page_index(k) < p)),
                forall|k: nat| #[trigger] self.is_completed(k) == (old(self).is_completed(k)
                    && !(old(self).is_dropped(k) && page_index(k) < p)),
                forall|k: nat| (old(self).is_dropped(k) && page_index(k) < p)
                    ==> #[trigger] self.generation(k) != old(self).generation(k),
                forall|k: nat| !(old(self).is_dropped(k) && page_index(k) < p)
                    ==> #[trigger] self.generation(k) == old(self).generation(k),
            decreases n - p,
        {
            let ghost before = *self;
            self.sweep_dropped(p);
            proof {
                assert forall|k: nat| #[trigger] before.swept_by(p as nat, k) == (old(self).is_dropped(k)
                    && page_index(k) == p) by {}
            }
            p = p + 1;
        }
        proof {
            assert forall|k: nat| old(self).is_dropped(k) implies page_index(k) < n by {}
        }
    }

    /// Ends a scheduling pass: marks completed each stored key in `ready`, the
    /// slots whose poll in this pass returned Ready, then sweeps every page. A
    /// slot that was polled and stayed Pending keeps its completed bit as it
    /// was; every slot whose handle was released is reclaimed.
    pub fn finish_pass(&mut self, ready: &Vec<u64>)
        requires
            old(self).wf(),
        ensures
            final(self).wf(),
            final(self).num_pages() == old(self).num_pages(),
            forall|k: nat| #[trigger] final(self).slots().contains_key(k) == (old(self).slots().contains_key(k)
                && !old(self).is_dropped(k)),
            forall|k: nat| #[trigger] final(self).slots().contains_key(k) ==> final(self).slots()[k] == old(self).slots()[k],
            forall|k: nat| !#[trigger] final(self).is_dropped(k),
            forall|k: nat| #[trigger] final(self).is_notified(k) == (old(self).is_notified(k) && !old(self).is_dropped(k)),
            forall|k: nat| #[trigger] final(self).is_completed(k) == ((old(self).is_completed(k) || (
            old(self).slots().contains_key(k) && lists_key(ready@, k))) && !old(self).is_dropped(k)),
            forall|k: nat| old(self).is_dropped(k) ==> #[trigger] final(self).generation(k) != old(self).generation(k),
            forall|k: nat| !old(self).is_dropped(k) ==> #[trigger] final(self).generation(k) == old(self).generation(k),
    {
        let mut i: usize = 0;
        while i < ready.len()
            invariant
                0 <= i <= ready@.len(),
                self.wf(),
                self.slots() == old(self).slots(),
                self.num_pages() == old(self).num_pages(),
                self.same_generations(old(self)),
                forall|k: nat| #[trigger] self.is_notified(k) == old(self).is_notified(k),
                forall|k: nat| #[trigger] self.is_dropped(k) == old(self).is_dropped(k),
                forall|k: nat| #[trigger] self.is_completed(k) == (old(self).is_completed(k) || (
                old(self).slots().contains_key(k) && lists_key(ready@.subrange(0, i as int), k))),
            decreases ready@.len() - i,
        {
            let key = ready[i];
            let ghost before = *self;
            if key <= usize::MAX as u64 && slab_contains(&self.slab, key as usize) {
                assert(self.slots().contains_key(key as nat));
                self.complete(key);
            }
            proof {
                let done = ready@.subrange(0, i as int);
                let next = ready@.subrange(0, i + 1);
                assert forall|k: nat| #[trigger] self.is_notified(k) == old(self).is_notified(k) by {
                    if k != key as nat {
                        assert(self.same_bits(&before, k));
                    }
                }
                assert forall|k: nat| #[trigger] self.is_dropped(k) == old(self).is_dropped(k) by {
                    if k != key as nat {
                        assert(self.same_bits(&before, k));
                    }
                }
                assert forall|k: nat| #[trigger] self.is_completed(k) == (old(self).is_completed(k) || (
                old(self).slots().contains_key(k) && lists_key(next, k))) by {
                    if lists_key(next, k) {
                        let j = choose|j: int| 0 <= j < next.len() && next[j] as nat == k;
                        if j < done.len() {
                            assert(done[j] as nat == k);
                        }
                    }
                    if lists_key(done, k) {
                        let j = choose|j: int| 0 <= j < done.len() && done[j] as nat == k;
                        assert(next[j] as nat == k);
                    }
                    assert(next[i as int] == key);
                    if k != key as nat {
                        assert(self.same_bits(&before, k));
                    }
                }
            }
            i = i + 1;
        }
        assert(ready@.subrange(0, ready@.len() as int) =~= ready@);
        self.sweep_all_dropped();
    }

    /// The number of wake pages.
    pub fn page_count(&self) -> (r: usize)
        ensures
            r == self.num_pages(),
    {
        self.pages.len()
    }
}

/// A wake token made before its key was reclaimed (by `Scheduler::take` or
/// `Scheduler::sweep_dropped`, which move the key to a new generation) is not
/// current for any later state that keeps generations, as every other
/// operation, `insert` of a new occupant included, does. `Scheduler::notify`
/// with a token that is not current changes no bit.
pub proof fn lemma_reclaimed_token_stays_stale(
    made: Scheduler,
    reclaimed: Scheduler,
    later: Scheduler,
    t: WakeToken,
)
    requires
        made.is_current(t),
        reclaimed.generation(t.key()) != made.generation(t.key()),
        later.same_generations(&reclaimed),
    ensures
        !later.is_current(t),
{
    assert(later.generation(t.key()) == reclaimed.generation(t.key()));
}

} // verus!

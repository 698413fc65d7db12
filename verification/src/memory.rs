//! Accounting of a bounded cache of tensors: how many bytes are held, under
//! which handles, and how many are left.
//!
//! The tensors themselves live beside this accounting; it records the size
//! of each allocation under its handle.
use vstd::prelude::*;

verus! {

/// A handle to an allocation.
pub type Handle = u64;

/// Why an allocation was refused.
#[derive(Debug, Clone, Copy, PartialEq, Eq, Structural)]
pub enum CacheError {
    /// `needed` bytes were asked for while only `available` were left.
    CacheFull { needed: usize, available: usize },
}

/// The product of the dimensions `s`.
pub open spec fn dims_product(s: Seq<usize>) -> nat
    decreases s.len(),
{
    if s.len() == 0 {
        1
    } else {
        dims_product(s.drop_last()) * (s.last() as nat)
    }
}

/// Whether every partial product of the dimensions `s`, taken from the
/// first, fits a `usize`.
pub open spec fn dims_fit(s: Seq<usize>) -> bool {
    forall|i: int| 0 <= i <= s.len() ==> #[trigger] dims_product(s.take(i)) <= usize::MAX
}

/// The total size of the allocations `rs`.
pub open spec fn total(rs: Seq<(u64, nat)>) -> nat
    decreases rs.len(),
{
    if rs.len() == 0 {
        0
    } else {
        total(rs.drop_last()) + rs.last().1
    }
}

/// The first position of an allocation under handle `h` in `rs`.
pub open spec fn position_of(rs: Seq<(u64, nat)>, h: u64) -> int
    decreases rs.len(),
{
    if rs.len() == 0 {
        -1
    } else if rs[0].0 == h {
        0
    } else {
        let p = position_of(rs.drop_first(), h);
        if p < 0 {
            -1
        } else {
            p + 1
        }
    }
}

/// What the cache records: its capacity, the bytes held, the allocations in
/// the order they were made, the next handle, and whether the handles have
/// wrapped past `u64::MAX`.
pub struct MemoryView {
    pub max_size: nat,
    pub current: nat,
    pub allocations: Seq<(u64, nat)>,
    pub next_handle: u64,
    pub wrapped: bool,
}

/// What holds of every cache: it never holds more than its capacity, and the
/// bytes it holds are the sizes of its allocations together.
pub open spec fn memory_wf(v: MemoryView) -> bool {
    &&& v.current <= v.max_size
    &&& v.current == total(v.allocations)
}

/// Whether the handles of the allocations increase in the order they were
/// made, all below the next handle; then no handle is held twice, and the
/// next one is held by none.
pub open spec fn handles_fresh(v: MemoryView) -> bool {
    &&& forall|i: int, j: int|
        0 <= i < j < v.allocations.len() ==> (#[trigger] v.allocations[i]).0 < (
        #[trigger] v.allocations[j]).0
    &&& forall|i: int| 0 <= i < v.allocations.len() ==> (#[trigger] v.allocations[i]).0 < v.next_handle
}

/// What holds of every cache: it is well formed, and until its handles
/// wrap, they are fresh.
pub open spec fn memory_inv(v: MemoryView) -> bool {
    &&& memory_wf(v)
    &&& !v.wrapped ==> handles_fresh(v)
}

/// The handle after `h`, wrapping.
pub open spec fn handle_after(h: u64) -> u64 {
    if h == u64::MAX {
        0
    } else {
        (h + 1) as u64
    }
}

/// A cache of at most `max_size_bytes` bytes.
pub struct MemoryCache {
    max_size_bytes: usize,
    current_size_bytes: usize,
    allocations: Vec<(u64, usize)>,
    handle_counter: u64,
    wrapped: Ghost<bool>,
}

pub open spec fn sizes(v: Seq<(u64, usize)>) -> Seq<(u64, nat)> {
    v.map_values(|e: (u64, usize)| (e.0, e.1 as nat))
}

impl View for MemoryCache {
    type V = MemoryView;

    closed spec fn view(&self) -> MemoryView {
        MemoryView {
            max_size: self.max_size_bytes as nat,
            current: self.current_size_bytes as nat,
            allocations: sizes(self.allocations@),
            next_handle: self.handle_counter,
            wrapped: self.wrapped@,
        }
    }
}

proof fn lemma_dims_step(s: Seq<usize>, i: int)
    requires
        0 <= i < s.len(),
    ensures
        dims_product(s.take(i + 1)) == dims_product(s.take(i)) * (s[i] as nat),
{
    assert(s.take(i + 1).drop_last() =~= s.take(i));
}

proof fn lemma_total_push(rs: Seq<(u64, nat)>, e: (u64, nat))
    ensures
        total(rs.push(e)) == total(rs) + e.1,
{
    assert(rs.push(e).drop_last() =~= rs);
}

/// Removing the allocation at position `i` takes its size off the total.
proof fn lemma_total_remove(rs: Seq<(u64, nat)>, i: int)
    requires
        0 <= i < rs.len(),
    ensures
        total(rs.remove(i)) + rs[i].1 == total(rs),
        rs[i].1 <= total(rs),
    decreases rs.len(),
{
    if i == rs.len() - 1 {
        assert(rs.remove(i) =~= rs.drop_last());
    } else {
        lemma_total_remove(rs.drop_last(), i);
        assert(rs.remove(i).drop_last() =~= rs.drop_last().remove(i));
        assert(rs.remove(i).last() == rs.last());
    }
}

proof fn lemma_position_of(rs: Seq<(u64, nat)>, h: u64)
    ensures
        -1 <= position_of(rs, h) < rs.len(),
        position_of(rs, h) >= 0 ==> rs[position_of(rs, h)].0 == h,
        position_of(rs, h) >= 0 ==> forall|k: int| 0 <= k < position_of(rs, h) ==> rs[k].0 != h,
        position_of(rs, h) < 0 ==> forall|k: int| 0 <= k < rs.len() ==> rs[k].0 != h,
    decreases rs.len(),
{
    if rs.len() > 0 && rs[0].0 != h {
        lemma_position_of(rs.drop_first(), h);
        assert forall|k: int| 0 < k < rs.len() implies rs[k] == rs.drop_first()[k - 1] by {}
    }
}

impl MemoryCache {
    #[verifier::type_invariant]
    spec fn inv(self) -> bool {
        memory_inv(self@)
    }

    /// An empty cache of at most `max_size_bytes` bytes; handles start at 1.
    pub fn new(max_size_bytes: usize) -> (r: MemoryCache)
        ensures
            r@ == (MemoryView {
                max_size: max_size_bytes as nat,
                current: 0,
                allocations: Seq::empty(),
                next_handle: 1,
                wrapped: false,
            }),
            memory_inv(r@),
    {
        let r = MemoryCache {
            max_size_bytes,
            current_size_bytes: 0,
            allocations: Vec::new(),
            handle_counter: 1,
            wrapped: Ghost(false),
        };
        assert(sizes(r.allocations@) =~= Seq::<(u64, nat)>::empty());
        r
    }

    /// Accounts for a tensor of dimensions `shape` whose elements take
    /// `element_size` bytes each, giving its handle. `CacheFull` when the
    /// bytes held and the bytes needed exceed the capacity; nothing changes
    /// then. The size and the sum must fit a `usize`.
    pub fn allocate(&mut self, shape: &[usize], element_size: usize) -> (r: Result<Handle, CacheError>)
        requires
            dims_fit(shape@),
            dims_product(shape@) * element_size <= usize::MAX,
            old(self)@.current + dims_product(shape@) * element_size <= usize::MAX,
        ensures
            ({
                let size = (dims_product(shape@) * element_size) as nat;
                let s = old(self)@;
                if s.current + size > s.max_size {
                    &&& r == Err::<Handle, CacheError>(
                        CacheError::CacheFull { needed: size as usize, available: (s.max_size - s.current) as usize },
                    )
                    &&& final(self)@ == s
                } else {
                    &&& r == Ok::<Handle, CacheError>(s.next_handle)
                    &&& final(self)@ == (MemoryView {
                        current: s.current + size,
                        allocations: s.allocations.push((s.next_handle, size)),
                        next_handle: handle_after(s.next_handle),
                        wrapped: s.wrapped || s.next_handle == u64::MAX,
                        ..s
                    })
                }
            }),
            memory_inv(old(self)@),
            memory_inv(final(self)@),
    {
        proof {
            use_type_invariant(&*self);
        }
        let mut n: usize = 1;
        let mut i: usize = 0;
        assert(shape@.take(0) =~= Seq::<usize>::empty());
        while i < shape.len()
            invariant
                i <= shape@.len(),
                dims_fit(shape@),
                n as nat == dims_product(shape@.take(i as int)),
            decreases shape@.len() - i,
        {
            proof {
                lemma_dims_step(shape@, i as int);
            }
            assert(dims_product(shape@.take(i + 1)) <= usize::MAX);
            n = n * shape[i];
            i = i + 1;
        }
        assert(shape@.take(i as int) =~= shape@);
        let size = n * element_size;
        if self.current_size_bytes + size > self.max_size_bytes {
            return Err(
                CacheError::CacheFull {
                    needed: size,
                    available: self.max_size_bytes - self.current_size_bytes,
                },
            );
        }
        let mut taken = MemoryCache::new(0);
        std::mem::swap(self, &mut taken);
        proof {
            use_type_invariant(&taken);
        }
        let ghost s = taken@;
        let MemoryCache { max_size_bytes, current_size_bytes, mut allocations, handle_counter, wrapped } =
            taken;
        let ghost before = allocations@;
        allocations.push((handle_counter, size));
        proof {
            lemma_total_push(sizes(before), (handle_counter, size as nat));
            assert(sizes(allocations@) =~= sizes(before).push((handle_counter, size as nat)));
        }
        let next = if handle_counter == u64::MAX {
            0
        } else {
            handle_counter + 1
        };
        let ghost w: bool = wrapped@ || handle_counter == u64::MAX;
        let now_wrapped: Ghost<bool> = Ghost(w);
        *self = MemoryCache {
            max_size_bytes,
            current_size_bytes: current_size_bytes + size,
            allocations,
            handle_counter: next,
            wrapped: now_wrapped,
        };
        Ok(handle_counter)
    }

    /// The position of the first allocation under `handle`, if there is one.
    fn find(&self, handle: Handle) -> (r: Option<usize>)
        ensures
            match r {
                Some(i) => position_of(self@.allocations, handle) == i,
                None => position_of(self@.allocations, handle) < 0,
            },
    {
        proof {
            lemma_position_of(sizes(self.allocations@), handle);
        }
        let ghost rs = sizes(self.allocations@);
        let mut i: usize = 0;
        while i < self.allocations.len()
            invariant
                i <= self.allocations@.len(),
                rs == sizes(self.allocations@),
                forall|k: int| 0 <= k < i ==> rs[k].0 != handle,
            decreases self.allocations@.len() - i,
        {
            if self.allocations[i].0 == handle {
                proof {
                    lemma_position_of(rs, handle);
                }
                assert(rs[i as int].0 == handle);
                assert(position_of(rs, handle) == i as int) by {
                    let pos = position_of(rs, handle);
                    if pos < 0 {
                        assert(rs[i as int].0 != handle);
                    } else if pos < i {
                        assert(rs[pos].0 != handle);
                    } else if pos > i {
                        assert(rs[i as int].0 != handle);
                    }
                }
                return Some(i);
            }
            i = i + 1;
        }
        proof {
            lemma_position_of(rs, handle);
        }
        assert(position_of(rs, handle) < 0) by {
            if position_of(rs, handle) >= 0 {
                assert(rs[position_of(rs, handle)].0 == handle);
            }
        }
        None
    }

    /// Gives back the bytes of the first allocation under `handle`; nothing
    /// changes when there is none.
    pub fn free(&mut self, handle: Handle)
        ensures
            ({
                let s = old(self)@;
                let p = position_of(s.allocations, handle);
                if p < 0 {
                    final(self)@ == s
                } else {
                    final(self)@ == (MemoryView {
                        current: (s.current - s.allocations[p].1) as nat,
                        allocations: s.allocations.remove(p),
                        ..s
                    })
                }
            }),
            memory_inv(old(self)@),
            memory_inv(final(self)@),
    {
        proof {
            use_type_invariant(&*self);
        }
        let found = self.find(handle);
        let i = match found {
            None => {
                return;
            },
            Some(i) => i,
        };
        let mut taken = MemoryCache::new(0);
        std::mem::swap(self, &mut taken);
        proof {
            use_type_invariant(&taken);
        }
        let ghost s0 = taken@;
        let ghost rs = s0.allocations;
        let MemoryCache { max_size_bytes, current_size_bytes, mut allocations, handle_counter, wrapped } =
            taken;
        proof {
            lemma_position_of(rs, handle);
            lemma_total_remove(rs, i as int);
        }
        let size = allocations[i].1;
        allocations.remove(i);
        assert(sizes(allocations@) =~= rs.remove(i as int));
        assert(!s0.wrapped ==> handles_fresh(
            MemoryView { current: (s0.current - size) as nat, allocations: rs.remove(i as int), ..s0 },
        )) by {
            if !s0.wrapped {
                let r2 = rs.remove(i as int);
                assert forall|a: int, b: int| 0 <= a < b < r2.len() implies (#[trigger] r2[a]).0 < (
                #[trigger] r2[b]).0 by {
                    let a0 = if a < i { a } else { a + 1 };
                    let b0 = if b < i { b } else { b + 1 };
                    assert(r2[a] == rs[a0] && r2[b] == rs[b0]);
                }
                assert forall|a: int| 0 <= a < r2.len() implies (#[trigger] r2[a]).0 < s0.next_handle by {
                    let a0 = if a < i { a } else { a + 1 };
                    assert(r2[a] == rs[a0]);
                }
            }
        }
        *self = MemoryCache {
            max_size_bytes,
            current_size_bytes: current_size_bytes - size,
            allocations,
            handle_counter,
            wrapped,
        };
    }

    /// The bytes still free.
    pub fn bytes_left(&self) -> (r: usize)
        ensures
            r == self@.max_size - self@.current,
            memory_inv(self@),
    {
        proof {
            use_type_invariant(self);
        }
        self.max_size_bytes - self.current_size_bytes
    }
}

/// Freeing the allocation just made gives its bytes back: the cache holds
/// what it held before, and the handle is then held by no allocation, so
/// freeing it again changes nothing.
pub proof fn lemma_allocate_then_free(s: MemoryView, size: nat)
    requires
        memory_inv(s),
        !s.wrapped,
        s.current + size <= s.max_size,
    ensures
        ({
            let t = MemoryView {
                current: s.current + size,
                allocations: s.allocations.push((s.next_handle, size)),
                next_handle: handle_after(s.next_handle),
                wrapped: s.next_handle == u64::MAX,
                ..s
            };
            let p = position_of(t.allocations, s.next_handle);
            &&& memory_wf(t)
            &&& p == s.allocations.len()
            &&& t.current - t.allocations[p].1 == s.current
            &&& t.allocations.remove(p) == s.allocations
            &&& position_of(t.allocations.remove(p), s.next_handle) < 0
        }),
{
    lemma_position_of(s.allocations, s.next_handle);
    if position_of(s.allocations, s.next_handle) >= 0 {
        assert(s.allocations[position_of(s.allocations, s.next_handle)].0 < s.next_handle);
    }
    let e = (s.next_handle, size);
    lemma_total_push(s.allocations, e);
    lemma_position_push(s.allocations, e);
    assert(s.allocations.push(e).remove(s.allocations.len() as int) =~= s.allocations);
}

proof fn lemma_position_push(rs: Seq<(u64, nat)>, e: (u64, nat))
    requires
        position_of(rs, e.0) < 0,
    ensures
        position_of(rs.push(e), e.0) == rs.len(),
    decreases rs.len(),
{
    if rs.len() > 0 {
        assert(rs.push(e).drop_first() =~= rs.drop_first().push(e));
        lemma_position_push(rs.drop_first(), e);
    }
}

} // verus!

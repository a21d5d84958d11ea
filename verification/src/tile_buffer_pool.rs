//! A pool of buffers for tile pixels, so that they are not allocated anew for
//! every tile.

use crossbeam::queue::SegQueue;
use vstd::prelude::*;

verus! {

/// `crossbeam::queue::SegQueue`, an unbounded first-in first-out queue.
#[verifier::external_type_specification]
#[verifier::external_body]
#[verifier::reject_recursive_types(T)]
pub struct ExSegQueue<T>(SegQueue<T>);

/// The buffers in a queue, the one that leaves next first.
pub uninterp spec fn queued(queue: SegQueue<Vec<u8>>) -> Seq<Vec<u8>>;

/// `SegQueue::new`: the queue is empty.
#[verifier::external_body]
fn new_queue() -> (queue: SegQueue<Vec<u8>>)
    ensures
        queued(queue) == Seq::<Vec<u8>>::empty(),
{
    SegQueue::new()
}

/// `SegQueue::push`: the buffer goes to the back. The caller holds the queue
/// alone, so no other thread adds or takes at the same time.
#[verifier::external_body]
fn push_buffer(queue: &mut SegQueue<Vec<u8>>, buffer: Vec<u8>)
    ensures
        queued(*final(queue)) == queued(*old(queue)).push(buffer),
{
    queue.push(buffer)
}

/// `SegQueue::pop`: takes the buffer at the front, or nothing where the queue
/// is empty. The caller holds the queue alone.
#[verifier::external_body]
fn pop_buffer(queue: &mut SegQueue<Vec<u8>>) -> (buffer: Option<Vec<u8>>)
    ensures
        buffer is None <==> queued(*old(queue)).len() == 0,
        buffer matches Some(b) ==> b == queued(*old(queue))[0] && queued(*final(queue)) == queued(
            *old(queue),
        ).drop_first(),
        buffer is None ==> queued(*final(queue)) == queued(*old(queue)),
{
    queue.pop()
}

/// `SegQueue::len`: how many buffers are in a queue that nobody else uses.
#[verifier::external_body]
fn queue_len(queue: &SegQueue<Vec<u8>>) -> (n: usize)
    ensures
        n == queued(*queue).len(),
{
    queue.len()
}

/// `Vec::capacity`: how many bytes a buffer holds without growing, never fewer
/// than it has. How many that is beyond its length is the allocator's choice.
#[verifier::external_body]
pub(crate) fn capacity_of(buffer: &Vec<u8>) -> (n: usize)
    ensures
        n >= buffer@.len(),
{
    buffer.capacity()
}

/// Buffers of one size, ready for use.
pub struct TileBufferPool {
    buffers: SegQueue<Vec<u8>>,
    buffer_size: usize,
}

/// Whether a returned buffer of this capacity is worth keeping: large enough,
/// and not so large that it wastes memory.
pub fn keeps_buffer(capacity: usize, buffer_size: usize) -> (keep: bool)
    ensures
        keep == (buffer_size <= capacity < buffer_size * 2),
{
    capacity >= buffer_size && capacity - buffer_size < buffer_size
}

/// The buffers at hand once one of this capacity is taken back, or dropped
/// because its capacity does not suit.
pub open spec fn taken_back(
    ready: Seq<Vec<u8>>,
    size: int,
    buffer: Vec<u8>,
    capacity: int,
) -> Seq<Vec<u8>> {
    if size <= capacity < size * 2 {
        ready.push(buffer)
    } else {
        ready
    }
}

impl TileBufferPool {
    /// The buffers at hand, the one handed out next first.
    pub closed spec fn ready(&self) -> Seq<Vec<u8>> {
        queued(self.buffers)
    }

    /// The size of a buffer.
    pub closed spec fn size(&self) -> nat {
        self.buffer_size as nat
    }

    /// A pool of `initial_count` zeroed buffers of `buffer_size` bytes.
    pub fn new(buffer_size: usize, initial_count: usize) -> (pool: Self)
        ensures
            pool.size() == buffer_size,
            pool.ready().len() == initial_count,
            forall|i: int|
                0 <= i < initial_count ==> (#[trigger] pool.ready()[i])@ == zeros(
                    buffer_size as nat,
                ),
    {
        let mut buffers: SegQueue<Vec<u8>> = new_queue();
        let mut i: usize = 0;
        while i < initial_count
            invariant
                i <= initial_count,
                queued(buffers).len() == i,
                forall|j: int|
                    0 <= j < i ==> (#[trigger] queued(buffers)[j])@ == zeros(buffer_size as nat),
            decreases initial_count - i,
        {
            push_buffer(&mut buffers, zeroed(buffer_size));
            i += 1;
        }
        TileBufferPool { buffers, buffer_size }
    }

    /// A zeroed buffer, from the pool or, where it is empty, a new one.
    pub fn get(&mut self) -> (buffer: Vec<u8>)
        ensures
            buffer@ == zeros(old(self).size()),
            final(self).size() == old(self).size(),
            final(self).ready() == (if old(self).ready().len() == 0 {
                old(self).ready()
            } else {
                old(self).ready().drop_first()
            }),
    {
        match pop_buffer(&mut self.buffers) {
            Some(mut buffer) => {
                buffer.clear();
                buffer.resize(self.buffer_size, 0);
                assert(buffer@ =~= zeros(self.buffer_size as nat));
                buffer
            },
            None => zeroed(self.buffer_size),
        }
    }

    /// Takes a buffer back where its capacity suits the pool, and drops it
    /// otherwise. The capacity is what the allocator gave; for each value of it,
    /// [`TileBufferPool::take_back`] says what becomes of the buffer. One that
    /// holds twice the pool's size is dropped in any case.
    pub fn return_buffer(&mut self, buffer: Vec<u8>)
        ensures
            final(self).size() == old(self).size(),
            exists|capacity: int|
                capacity >= buffer@.len() && final(self).ready() == #[trigger] taken_back(
                    old(self).ready(),
                    old(self).size() as int,
                    buffer,
                    capacity,
                ),
            buffer@.len() >= old(self).size() * 2 ==> final(self).ready() == old(self).ready(),
    {
        let capacity: usize = capacity_of(&buffer);
        self.take_back(buffer, capacity);
    }

    /// Takes a buffer of this capacity back where that suits the pool, and drops
    /// it otherwise.
    pub fn take_back(&mut self, buffer: Vec<u8>, capacity: usize)
        ensures
            final(self).size() == old(self).size(),
            final(self).ready() == taken_back(
                old(self).ready(),
                old(self).size() as int,
                buffer,
                capacity as int,
            ),
    {
        if keeps_buffer(capacity, self.buffer_size) {
            push_buffer(&mut self.buffers, buffer);
        }
    }

    /// How many buffers are at hand.
    pub fn available_buffers(&self) -> (n: usize)
        ensures
            n == self.ready().len(),
    {
        queue_len(&self.buffers)
    }
}

/// `n` zero bytes.
pub open spec fn zeros(n: nat) -> Seq<u8> {
    Seq::new(n, |i: int| 0u8)
}

fn zeroed(n: usize) -> (buffer: Vec<u8>)
    ensures
        buffer@ == zeros(n as nat),
{
    let buffer: Vec<u8> = vec![0u8; n];
    assert(buffer@ =~= zeros(n as nat));
    buffer
}

/// A buffer goes to the end of those at hand where its capacity is at least the size and
/// less than twice as much; those before it stay as they are in any case.
pub proof fn law_suitable_buffers_are_kept(
    ready: Seq<Vec<u8>>,
    size: int,
    buffer: Vec<u8>,
    capacity: int,
)
    requires
        size >= 0,
    ensures
        ({
            let after = taken_back(ready, size, buffer, capacity);
            &&& ready.is_prefix_of(after)
            &&& after.len() == ready.len() + 1 <==> size <= capacity && capacity - size < size
            &&& after.len() == ready.len() || (after.len() == ready.len() + 1 && after.last()
                == buffer)
        }),
{
}

} // verus!

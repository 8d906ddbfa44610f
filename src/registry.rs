use vstd::prelude::*;
use crate::error::EngineError;

verus! {

/// One buffer of the engine: its elements are of the wide (double-precision)
/// or of the narrow (single-precision) element type.
pub enum Buffer<A, B> {
    Wide(Vec<A>),
    Narrow(Vec<B>),
}

/// What a buffer holds, as a sequence of its element type.
pub enum Contents<A, B> {
    Wide(Seq<A>),
    Narrow(Seq<B>),
}

impl<A, B> View for Buffer<A, B> {
    type V = Contents<A, B>;

    open spec fn view(&self) -> Contents<A, B> {
        match self {
            Buffer::Wide(v) => Contents::Wide(v@),
            Buffer::Narrow(v) => Contents::Narrow(v@),
        }
    }
}

/// The elements of a wide buffer.
pub open spec fn wide_of<A, B>(c: Contents<A, B>) -> Seq<A> {
    match c {
        Contents::Wide(s) => s,
        Contents::Narrow(_) => Seq::empty(),
    }
}

/// The elements of a narrow buffer.
pub open spec fn narrow_of<A, B>(c: Contents<A, B>) -> Seq<B> {
    match c {
        Contents::Wide(_) => Seq::empty(),
        Contents::Narrow(s) => s,
    }
}

/// The number of elements of a buffer, whatever its element type.
pub open spec fn length_of<A, B>(c: Contents<A, B>) -> nat {
    match c {
        Contents::Wide(s) => s.len(),
        Contents::Narrow(s) => s.len(),
    }
}

/// The buffer registry: owns every buffer of the engine, of both element
/// types, and names each by a handle.
///
/// Handles are handed out in increasing order from zero, from one counter
/// shared by both element types, and never reused: the handle of a buffer is
/// its position in the order of creation, so a handle names exactly one
/// buffer. A buffer keeps its element type and the length it was created
/// with: kernels write into it but cannot resize it, and a result of another
/// size goes into a new buffer.
pub struct EngineState<A, B> {
    buffers: Vec<Buffer<A, B>>,
}

/// The largest number of buffers a registry can hold: handles are `u32`.
pub const MAX_BUFFERS: usize = 4294967295;

impl<A, B> View for EngineState<A, B> {
    /// The buffers' contents, indexed by handle.
    type V = Seq<Contents<A, B>>;

    closed spec fn view(&self) -> Seq<Contents<A, B>> {
        Seq::new(self.buffers@.len(), |i: int| self.buffers@[i]@)
    }
}

/// The contents of a new buffer: `size` copies of `fill`.
pub open spec fn filled<T>(size: nat, fill: T) -> Seq<T> {
    Seq::new(size, |_i: int| fill)
}

/// `values` written into `buf` from position `offset` on.
pub open spec fn overwrite<T>(buf: Seq<T>, offset: int, values: Seq<T>) -> Seq<T> {
    Seq::new(
        buf.len(),
        |i: int|
            if offset <= i < offset + values.len() {
                values[i - offset]
            } else {
                buf[i]
            },
    )
}

/// Writes `values` into `v` from position `offset` on.
fn overwrite_in_place<T: Copy>(v: &mut Vec<T>, offset: usize, values: &[T])
    requires
        offset + values@.len() <= old(v)@.len(),
    ensures
        final(v)@ == overwrite(old(v)@, offset as int, values@),
{
    let n = v.len();
    let mut j: usize = 0;
    while j < values.len()
        invariant
            j <= values@.len(),
            offset + values@.len() <= old(v)@.len(),
            v@.len() == old(v)@.len(),
            n == old(v)@.len(),
            v@ == overwrite(old(v)@, offset as int, values@.take(j as int)),
        decreases values@.len() - j,
    {
        v.set(offset + j, values[j]);
        proof {
            assert(v@ =~= overwrite(old(v)@, offset as int, values@.take(j + 1)));
        }
        j = j + 1;
    }
    proof {
        assert(values@.take(j as int) =~= values@);
    }
}

/// `size` copies of `fill`.
fn filled_vec<T: Copy>(size: usize, fill: T) -> (v: Vec<T>)
    ensures
        v@ == filled(size as nat, fill),
{
    let mut v: Vec<T> = Vec::new();
    let mut i: usize = 0;
    while i < size
        invariant
            i <= size,
            v@ == filled(i as nat, fill),
        decreases size - i,
    {
        v.push(fill);
        proof {
            assert(v@ =~= filled((i + 1) as nat, fill));
        }
        i = i + 1;
    }
    v
}

impl<A: Copy, B: Copy> EngineState<A, B> {
    /// Every handle fits in a `u32`.
    pub closed spec fn wf(&self) -> bool {
        self.buffers@.len() <= MAX_BUFFERS
    }

    /// The handle names a buffer of this registry.
    pub open spec fn has(&self, h: u32) -> bool {
        (h as int) < self@.len()
    }

    /// The handle names a wide buffer.
    pub open spec fn has_wide(&self, h: u32) -> bool {
        self.has(h) && self@[h as int] is Wide
    }

    /// The handle names a narrow buffer.
    pub open spec fn has_narrow(&self, h: u32) -> bool {
        self.has(h) && self@[h as int] is Narrow
    }

    /// The elements of the wide buffer that `h` names.
    pub open spec fn wide(&self, h: u32) -> Seq<A> {
        wide_of(self@[h as int])
    }

    /// The elements of the narrow buffer that `h` names.
    pub open spec fn narrow(&self, h: u32) -> Seq<B> {
        narrow_of(self@[h as int])
    }

    /// The handle that the next created buffer gets, of either element type.
    pub open spec fn next_handle(&self) -> nat {
        self@.len()
    }

    /// Only the wide buffer `h` may have changed, and it kept its length;
    /// every other buffer, and the set of handles, is as before.
    pub open spec fn only_changed(&self, before: &Self, h: u32) -> bool {
        &&& self@.len() == before@.len()
        &&& forall|g: int| 0 <= g < before@.len() && g != h ==> #[trigger] self@[g] == before@[g]
        &&& forall|g: int| 0 <= g < before@.len() ==> (#[trigger] self@[g] is Wide <==> before@[g] is Wide)
        &&& forall|g: int| 0 <= g < before@.len() ==> #[trigger] length_of(self@[g]) == length_of(before@[g])
    }

    pub fn new() -> (r: EngineState<A, B>)
        ensures
            r.wf(),
            r@ == Seq::<Contents<A, B>>::empty(),
    {
        let r = EngineState { buffers: Vec::new() };
        proof {
            assert(r@ =~= Seq::<Contents<A, B>>::empty());
        }
        r
    }

    /// How many buffers have been created, of both element types.
    pub fn count(&self) -> (r: usize)
        ensures
            r == self@.len(),
    {
        self.buffers.len()
    }

    /// Whether another buffer can still get a handle.
    pub fn can_create(&self) -> (r: bool)
        requires
            self.wf(),
        ensures
            r == (self@.len() < MAX_BUFFERS),
    {
        self.buffers.len() < MAX_BUFFERS
    }

    /// Whether the handle names a buffer of this registry, of either element type.
    pub fn contains(&self, h: u32) -> (r: bool)
        ensures
            r == self.has(h),
    {
        (h as usize) < self.buffers.len()
    }

    fn push_buffer(&mut self, b: Buffer<A, B>) -> (h: u32)
        requires
            old(self).wf(),
            old(self)@.len() < MAX_BUFFERS,
        ensures
            final(self).wf(),
            h as nat == old(self).next_handle(),
            final(self)@ == old(self)@.push(b@),
    {
        let h = self.buffers.len() as u32;
        self.buffers.push(b);
        proof {
            assert(self@ =~= old(self)@.push(b@));
        }
        h
    }

    /// Takes `values` as a new wide buffer and returns its fresh handle.
    pub fn adopt(&mut self, values: Vec<A>) -> (h: u32)
        requires
            old(self).wf(),
            old(self)@.len() < MAX_BUFFERS,
        ensures
            final(self).wf(),
            h as nat == old(self).next_handle(),
            !old(self).has(h),
            final(self).has_wide(h),
            final(self)@ == old(self)@.push(Contents::Wide(values@)),
    {
        self.push_buffer(Buffer::Wide(values))
    }

    /// Allocates a wide buffer of `size` elements, each `fill` (the element
    /// type's zero), and returns its fresh handle.
    pub fn create_vector(&mut self, size: usize, fill: A) -> (h: u32)
        requires
            old(self).wf(),
            old(self)@.len() < MAX_BUFFERS,
        ensures
            final(self).wf(),
            h as nat == old(self).next_handle(),
            !old(self).has(h),
            final(self).has_wide(h),
            final(self)@ == old(self)@.push(Contents::Wide(filled(size as nat, fill))),
    {
        let v = filled_vec(size, fill);
        self.push_buffer(Buffer::Wide(v))
    }

    /// Allocates a narrow (single-precision) buffer of `size` elements, each
    /// `fill`, and returns its fresh handle, taken from the same counter as
    /// the wide buffers' handles.
    pub fn create_vector_f32(&mut self, size: usize, fill: B) -> (h: u32)
        requires
            old(self).wf(),
            old(self)@.len() < MAX_BUFFERS,
        ensures
            final(self).wf(),
            h as nat == old(self).next_handle(),
            !old(self).has(h),
            final(self).has_narrow(h),
            final(self)@ == old(self)@.push(Contents::Narrow(filled(size as nat, fill))),
    {
        let v = filled_vec(size, fill);
        self.push_buffer(Buffer::Narrow(v))
    }

    /// Allocates `count` wide buffers of `size` elements each, with
    /// consecutive fresh handles.
    pub fn create_batch(&mut self, count: usize, size: usize, fill: A) -> (ids: Vec<u32>)
        requires
            old(self).wf(),
            old(self)@.len() + count <= MAX_BUFFERS,
        ensures
            final(self).wf(),
            ids@.len() == count,
            forall|i: int| 0 <= i < count ==> #[trigger] ids@[i] as int == old(self)@.len() + i,
            final(self)@ == old(self)@ + Seq::new(
                count as nat,
                |_i: int| Contents::<A, B>::Wide(filled(size as nat, fill)),
            ),
    {
        let mut ids: Vec<u32> = Vec::new();
        let mut i: usize = 0;
        while i < count
            invariant
                i <= count,
                self.wf(),
                old(self)@.len() + count <= MAX_BUFFERS,
                self@.len() == old(self)@.len() + i,
                ids@.len() == i,
                forall|j: int| 0 <= j < i ==> #[trigger] ids@[j] as int == old(self)@.len() + j,
                self@ == old(self)@ + Seq::new(
                    i as nat,
                    |_i: int| Contents::<A, B>::Wide(filled(size as nat, fill)),
                ),
            decreases count - i,
        {
            let h = self.create_vector(size, fill);
            ids.push(h);
            proof {
                assert(self@ =~= old(self)@ + Seq::new(
                    (i + 1) as nat,
                    |_i: int| Contents::<A, B>::Wide(filled(size as nat, fill)),
                ));
            }
            i = i + 1;
        }
        ids
    }

    /// The length of the wide buffer that `h` names. A handle that names no
    /// buffer, or a narrow one, is unknown here.
    pub fn len_of(&self, h: u32) -> (r: Result<usize, EngineError>)
        ensures
            self.has_wide(h) ==> (r matches Ok(n) && n == self.wide(h).len()),
            !self.has_wide(h) ==> r == Err::<usize, EngineError>(EngineError::UnknownHandle),
    {
        if (h as usize) < self.buffers.len() {
            match &self.buffers[h as usize] {
                Buffer::Wide(v) => Ok(v.len()),
                Buffer::Narrow(_) => Err(EngineError::UnknownHandle),
            }
        } else {
            Err(EngineError::UnknownHandle)
        }
    }

    /// The common length of the wide buffers that `a` and `b` name, as a
    /// kernel that reads one and writes the other needs them.
    pub fn matching_len(&self, a: u32, b: u32) -> (r: Result<usize, EngineError>)
        ensures
            !self.has_wide(a) || !self.has_wide(b) ==> r == Err::<usize, EngineError>(
                EngineError::UnknownHandle,
            ),
            self.has_wide(a) && self.has_wide(b) && self.wide(a).len() != self.wide(b).len() ==> r
                == Err::<usize, EngineError>(EngineError::InvalidLength),
            self.has_wide(a) && self.has_wide(b) && self.wide(a).len() == self.wide(b).len() ==> (r matches Ok(
                n,
            ) && n == self.wide(a).len()),
    {
        let n = match self.len_of(a) {
            Ok(n) => n,
            Err(e) => return Err(e),
        };
        let m = match self.len_of(b) {
            Ok(m) => m,
            Err(e) => return Err(e),
        };
        if n != m {
            Err(EngineError::InvalidLength)
        } else {
            Ok(n)
        }
    }

    /// Read access to the wide buffer that `h` names.
    pub fn get(&self, h: u32) -> (r: Result<&Vec<A>, EngineError>)
        ensures
            self.has_wide(h) ==> (r matches Ok(b) && b@ == self.wide(h)),
            !self.has_wide(h) ==> r == Err::<&Vec<A>, EngineError>(EngineError::UnknownHandle),
    {
        if (h as usize) < self.buffers.len() {
            match &self.buffers[h as usize] {
                Buffer::Wide(v) => Ok(v),
                Buffer::Narrow(_) => Err(EngineError::UnknownHandle),
            }
        } else {
            Err(EngineError::UnknownHandle)
        }
    }

    /// Read access to the narrow buffer that `h` names.
    pub fn get_f32(&self, h: u32) -> (r: Result<&Vec<B>, EngineError>)
        ensures
            self.has_narrow(h) ==> (r matches Ok(b) && b@ == self.narrow(h)),
            !self.has_narrow(h) ==> r == Err::<&Vec<B>, EngineError>(EngineError::UnknownHandle),
    {
        if (h as usize) < self.buffers.len() {
            match &self.buffers[h as usize] {
                Buffer::Wide(_) => Err(EngineError::UnknownHandle),
                Buffer::Narrow(v) => Ok(v),
            }
        } else {
            Err(EngineError::UnknownHandle)
        }
    }

    /// Copies `values` into the wide buffer that `h` names, from position
    /// `offset` on. No other buffer changes, and the buffer keeps its length.
    pub fn write(&mut self, h: u32, offset: usize, values: &[A]) -> (r: Result<(), EngineError>)
        ensures
            !old(self).has_wide(h) ==> r == Err::<(), EngineError>(EngineError::UnknownHandle),
            old(self).has_wide(h) && offset + values@.len() > old(self).wide(h).len() ==> r == Err::<
                (),
                EngineError,
            >(EngineError::InvalidLength),
            old(self).has_wide(h) && offset + values@.len() <= old(self).wide(h).len() ==> r is Ok,
            r is Ok ==> final(self)@ == old(self)@.update(
                h as int,
                Contents::Wide(overwrite(old(self).wide(h), offset as int, values@)),
            ),
            r is Err ==> final(self)@ == old(self)@,
            final(self).only_changed(&*old(self), h),
            old(self).wf() ==> final(self).wf(),
    {
        let len = match self.len_of(h) {
            Ok(n) => n,
            Err(e) => return Err(e),
        };
        if offset > len || values.len() > len - offset {
            return Err(EngineError::InvalidLength);
        }
        match &mut self.buffers[h as usize] {
            Buffer::Wide(v) => overwrite_in_place(v, offset, values),
            Buffer::Narrow(_) => {},
        }
        proof {
            assert(self@ =~= old(self)@.update(
                h as int,
                Contents::Wide(overwrite(old(self).wide(h), offset as int, values@)),
            ));
        }
        Ok(())
    }

    /// Replaces the contents of the wide buffer that `h` names by `values`,
    /// which must have the buffer's length. No other buffer changes.
    pub fn store(&mut self, h: u32, values: Vec<A>) -> (r: Result<(), EngineError>)
        ensures
            !old(self).has_wide(h) ==> r == Err::<(), EngineError>(EngineError::UnknownHandle),
            old(self).has_wide(h) && values@.len() != old(self).wide(h).len() ==> r == Err::<
                (),
                EngineError,
            >(EngineError::InvalidLength),
            old(self).has_wide(h) && values@.len() == old(self).wide(h).len() ==> r is Ok,
            r is Ok ==> final(self)@ == old(self)@.update(h as int, Contents::Wide(values@)),
            r is Err ==> final(self)@ == old(self)@,
            final(self).only_changed(&*old(self), h),
            old(self).wf() ==> final(self).wf(),
    {
        let len = match self.len_of(h) {
            Ok(n) => n,
            Err(e) => return Err(e),
        };
        if values.len() != len {
            return Err(EngineError::InvalidLength);
        }
        self.buffers.set(h as usize, Buffer::Wide(values));
        proof {
            assert(self@ =~= old(self)@.update(h as int, Contents::Wide(values@)));
        }
        Ok(())
    }
}

} // verus!

use vstd::prelude::*;
use crate::job::Kind;

verus! {

/// The shared buffer that `T1` and `T3` jobs write into, one holder at a time.
pub struct Buffer {
    pub buf: Vec<u8>,
    pub owner: Option<Kind>,
    pub is_owned: bool,
}

/// What a buffer holds: the bytes written and the kind that holds it.
pub struct BufferView {
    pub contents: Seq<u8>,
    pub holder: Option<Kind>,
}

impl View for Buffer {
    type V = BufferView;

    open spec fn view(&self) -> BufferView {
        BufferView { contents: self.buf@, holder: self.owner }
    }
}

impl Buffer {
    /// The flag says whether anybody holds the buffer.
    pub open spec fn wf(&self) -> bool {
        self.is_owned == self.owner.is_some()
    }

    /// An empty buffer that nobody holds.
    pub fn init() -> (r: Buffer)
        ensures
            r.wf(),
            r@ == (BufferView { contents: seq![], holder: None }),
    {
        let r = Buffer { buf: Vec::new(), owner: None, is_owned: false };
        proof {
            assert(r.buf@ =~= seq![]);
        }
        r
    }

    /// Appends `append` if `credentials` holds the buffer; otherwise changes
    /// nothing and returns false.
    pub fn write_buffer(&mut self, append: u8, credentials: Kind) -> (r: bool)
        ensures
            r == (old(self)@.holder == Some(credentials)),
            r ==> final(self)@ == (BufferView {
                contents: old(self)@.contents.push(append),
                holder: old(self)@.holder,
            }),
            !r ==> final(self)@ == old(self)@,
            final(self).is_owned == old(self).is_owned,
    {
        if self.job_does_own(credentials) {
            self.buf.push(append);
            true
        } else {
            false
        }
    }

    /// Hands the buffer to `new_owner`, keeping its contents.
    pub fn set_owner(&mut self, new_owner: Kind)
        ensures
            final(self).wf(),
            final(self)@ == (BufferView { contents: old(self)@.contents, holder: Some(new_owner) }),
    {
        self.owner = Some(new_owner);
        self.is_owned = true;
    }

    /// Releases the buffer and clears its contents.
    pub fn free_buffer(&mut self)
        ensures
            final(self).wf(),
            final(self)@ == (BufferView { contents: seq![], holder: None }),
    {
        self.owner = None;
        self.is_owned = false;
        self.buf = Vec::new();
        proof {
            assert(self.buf@ =~= seq![]);
        }
    }

    /// Whether `credentials` holds the buffer.
    pub fn job_does_own(&self, credentials: Kind) -> (r: bool)
        ensures
            r == (self@.holder == Some(credentials)),
    {
        match self.owner {
            Some(k) => k == credentials,
            None => false,
        }
    }

    /// Whether anybody holds the buffer.
    pub fn is_held(&self) -> (r: bool)
        requires
            self.wf(),
        ensures
            r == self@.holder.is_some(),
    {
        self.is_owned
    }
}

} // verus!

use vstd::prelude::*;

verus! {

/// The version field must be written.
pub const VERSION_FLAG: u8 = 0b0000_0001;

/// The name must be written.
pub const NAME_FLAG: u8 = 0b0000_0010;

/// The description must be written.
pub const DESCRIPTION_FLAG: u8 = 0b0000_0100;

/// The context must be written.
pub const CONTEXT_FLAG: u8 = 0b0000_1000;

/// The identity must be written.
pub const IDENTITY_FLAG: u8 = 0b0001_0000;

/// The avatar position must be written.
pub const AVATAR_FLAG: u8 = 0b0010_0000;

/// The camera position must be written.
pub const CAMERA_FLAG: u8 = 0b0100_0000;

/// Every field must be written.
pub const ALL_FLAGS: u8 = 0b0111_1111;

/// The size of the context buffer.
pub const CONTEXT_SIZE: usize = 256;

/// The context buffer after `context` is stored: its first 256 bytes, then
/// zeros.
pub open spec fn stored_context(context: Seq<u8>) -> Seq<u8> {
    let n = if context.len() < 256 {
        context.len()
    } else {
        256
    };
    Seq::new(256, |i: int| if i < n { context[i] } else { 0u8 })
}

/// What the client keeps of a Mumble link between updates of the shared
/// memory: the context it publishes, the fields still to be written, and
/// whether the shared memory is open.
pub struct LinkState {
    context: [u8; 256],
    context_len: u32,
    changes: u8,
    active: bool,
}

impl LinkState {
    /// The context buffer.
    pub closed spec fn context_buffer(&self) -> Seq<u8> {
        self.context@
    }

    /// The length of the stored context.
    pub closed spec fn context_len(&self) -> nat {
        self.context_len as nat
    }

    /// The stored context.
    pub open spec fn context(&self) -> Seq<u8> {
        self.context_buffer().take(self.context_len() as int)
    }

    /// The fields still to be written.
    pub closed spec fn changes(&self) -> u8 {
        self.changes
    }

    /// Whether the shared memory is open.
    pub closed spec fn active(&self) -> bool {
        self.active
    }

    /// The stored context fits its buffer, and the buffer past it is zero.
    pub closed spec fn wf(&self) -> bool {
        &&& self.context_len <= 256
        &&& forall|i: int| self.context_len <= i < 256 ==> #[trigger] self.context@[i] == 0u8
    }

    /// The state of a freshly opened link: nothing stored, the version
    /// still to be written.
    pub fn new() -> (r: LinkState)
        ensures
            r.wf(),
            r.context_len() == 0,
            r.context() == Seq::<u8>::empty(),
            r.context_buffer() == Seq::new(256, |i: int| 0u8),
            r.changes() == VERSION_FLAG,
            r.active(),
    {
        let r = LinkState { context: [0u8; 256], context_len: 0, changes: VERSION_FLAG, active: true };
        assert(r.context_buffer() =~= Seq::new(256, |i: int| 0u8));
        assert(r.context() =~= Seq::<u8>::empty());
        r
    }

    /// Whether `context` is the stored context.
    fn same_context(&self, context: &[u8]) -> (r: bool)
        requires
            self.wf(),
        ensures
            r == (self.context() == context@),
    {
        if context.len() != self.context_len as usize {
            return false;
        }
        let mut i: usize = 0;
        while i < context.len()
            invariant
                self.wf(),
                context@.len() == self.context_len,
                0 <= i <= context@.len(),
                forall|j: int| 0 <= j < i ==> self.context@[j] == context@[j],
            decreases context@.len() - i,
        {
            if self.context[i] != context[i] {
                return false;
            }
            i = i + 1;
        }
        assert(self.context() =~= context@);
        true
    }

    /// Stores the context (at most 256 bytes, the rest cut off, the buffer
    /// past it zero) and marks it to be written, unless it is already the
    /// stored context.
    pub fn set_context(&mut self, context: &[u8])
        requires
            old(self).wf(),
        ensures
            final(self).wf(),
            final(self).active() == old(self).active(),
            final(self).context_buffer() == stored_context(context@),
            final(self).context_len() == if context@.len() < 256 {
                context@.len()
            } else {
                256
            },
            final(self).changes() == if old(self).context() == context@ {
                old(self).changes()
            } else {
                old(self).changes() | CONTEXT_FLAG
            },
    {
        if self.same_context(context) {
            proof {
                assert(self.context_buffer() =~= stored_context(context@));
            }
            return;
        }
        let len: usize = if context.len() < 256 {
            context.len()
        } else {
            256
        };
        let mut i: usize = 0;
        while i < 256
            invariant
                0 <= i <= 256,
                len <= 256,
                len <= context@.len(),
                len == if context@.len() < 256 {
                    context@.len()
                } else {
                    256
                },
                forall|j: int| 0 <= j < i ==> self.context@[j] == stored_context(context@)[j],
                self.active == old(self).active,
                self.changes == old(self).changes,
                old(self).context() != context@,
            decreases 256 - i,
        {
            if i < len {
                self.context[i] = context[i];
            } else {
                self.context[i] = 0;
            }
            i = i + 1;
        }
        assert(self.context@ =~= stored_context(context@));
        self.context_len = len as u32;
        self.changes = self.changes | CONTEXT_FLAG;
    }

    /// Marks the name to be written.
    pub fn name_changed(&mut self)
        ensures
            final(self).changes() == old(self).changes() | NAME_FLAG,
            final(self).context_buffer() == old(self).context_buffer(),
            final(self).context_len() == old(self).context_len(),
            final(self).active() == old(self).active(),
            old(self).wf() ==> final(self).wf(),
    {
        self.changes = self.changes | NAME_FLAG;
    }

    /// Marks the identity to be written.
    pub fn identity_changed(&mut self)
        ensures
            final(self).changes() == old(self).changes() | IDENTITY_FLAG,
            final(self).context_buffer() == old(self).context_buffer(),
            final(self).context_len() == old(self).context_len(),
            final(self).active() == old(self).active(),
            old(self).wf() ==> final(self).wf(),
    {
        self.changes = self.changes | IDENTITY_FLAG;
    }

    /// Marks the description to be written.
    pub fn description_changed(&mut self)
        ensures
            final(self).changes() == old(self).changes() | DESCRIPTION_FLAG,
            final(self).context_buffer() == old(self).context_buffer(),
            final(self).context_len() == old(self).context_len(),
            final(self).active() == old(self).active(),
            old(self).wf() ==> final(self).wf(),
    {
        self.changes = self.changes | DESCRIPTION_FLAG;
    }

    /// Marks the avatar position to be written.
    pub fn avatar_changed(&mut self)
        ensures
            final(self).changes() == old(self).changes() | AVATAR_FLAG,
            final(self).context_buffer() == old(self).context_buffer(),
            final(self).context_len() == old(self).context_len(),
            final(self).active() == old(self).active(),
            old(self).wf() ==> final(self).wf(),
    {
        self.changes = self.changes | AVATAR_FLAG;
    }

    /// Marks the camera position to be written.
    pub fn camera_changed(&mut self)
        ensures
            final(self).changes() == old(self).changes() | CAMERA_FLAG,
            final(self).context_buffer() == old(self).context_buffer(),
            final(self).context_len() == old(self).context_len(),
            final(self).active() == old(self).active(),
            old(self).wf() ==> final(self).wf(),
    {
        self.changes = self.changes | CAMERA_FLAG;
    }

    /// The fields to write to the shared memory now, which are then no
    /// longer pending; `None`, keeping them pending, where the shared memory
    /// is not open.
    pub fn take_changes(&mut self) -> (r: Option<u8>)
        ensures
            !old(self).active() ==> r is None && final(self).changes() == old(self).changes(),
            old(self).active() ==> r == Some(old(self).changes()) && final(self).changes() == 0,
            final(self).active() == old(self).active(),
            final(self).context_buffer() == old(self).context_buffer(),
            final(self).context_len() == old(self).context_len(),
            old(self).wf() ==> final(self).wf(),
    {
        if !self.active {
            return None;
        }
        let changes = self.changes;
        self.changes = 0;
        Some(changes)
    }

    /// Whether the shared memory is open.
    pub fn is_active(&self) -> (r: bool)
        ensures
            r == self.active(),
    {
        self.active
    }

    /// Closes the shared memory; once it is open again every field must be
    /// written. Returns whether it was open.
    pub fn disable(&mut self) -> (r: bool)
        ensures
            r == old(self).active(),
            !final(self).active(),
            old(self).active() ==> final(self).changes() == ALL_FLAGS,
            !old(self).active() ==> final(self).changes() == old(self).changes(),
            final(self).context_buffer() == old(self).context_buffer(),
            final(self).context_len() == old(self).context_len(),
            old(self).wf() ==> final(self).wf(),
    {
        if self.active {
            self.active = false;
            self.changes = ALL_FLAGS;
            return true;
        }
        false
    }

    /// Closes the shared memory and records whether opening it again
    /// succeeded.
    pub fn reconnect(&mut self, opened: bool)
        ensures
            final(self).active() == opened,
            old(self).active() ==> final(self).changes() == ALL_FLAGS,
            !old(self).active() ==> final(self).changes() == old(self).changes(),
            final(self).context_buffer() == old(self).context_buffer(),
            final(self).context_len() == old(self).context_len(),
            old(self).wf() ==> final(self).wf(),
    {
        self.disable();
        self.active = opened;
    }
}

/// Whether flag `flag` is among `changes`.
pub open spec fn has_flag(changes: u8, flag: u8) -> bool {
    changes & flag != 0
}

/// After the link is closed, every field is pending, so all of them are
/// written once the shared memory is open again.
pub proof fn law_disable_marks_all()
    ensures
        has_flag(ALL_FLAGS, VERSION_FLAG),
        has_flag(ALL_FLAGS, NAME_FLAG),
        has_flag(ALL_FLAGS, DESCRIPTION_FLAG),
        has_flag(ALL_FLAGS, CONTEXT_FLAG),
        has_flag(ALL_FLAGS, IDENTITY_FLAG),
        has_flag(ALL_FLAGS, AVATAR_FLAG),
        has_flag(ALL_FLAGS, CAMERA_FLAG),
{
    assert(0x7fu8 & 0x01u8 != 0) by (bit_vector);
    assert(0x7fu8 & 0x02u8 != 0) by (bit_vector);
    assert(0x7fu8 & 0x04u8 != 0) by (bit_vector);
    assert(0x7fu8 & 0x08u8 != 0) by (bit_vector);
    assert(0x7fu8 & 0x10u8 != 0) by (bit_vector);
    assert(0x7fu8 & 0x20u8 != 0) by (bit_vector);
    assert(0x7fu8 & 0x40u8 != 0) by (bit_vector);
}

/// A marked field stays pending until the next update takes it.
pub proof fn law_marked_is_pending(changes: u8, flag: u8)
    requires
        flag != 0,
    ensures
        has_flag(changes | flag, flag),
{
    assert(flag != 0 ==> (changes | flag) & flag != 0) by (bit_vector);
}

} // verus!

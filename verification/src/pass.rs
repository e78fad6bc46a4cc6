//! The passes of a frame.

use vstd::prelude::*;
use crate::access::TextureAccess;
use crate::handle::Handle;
use crate::types::{AttachmentLoadOp, AttachmentStoreOp, FrameGraphTexture};

verus! {

/// A texture and the access that a pass needs it with.
pub type TextureUse = (Handle<FrameGraphTexture>, TextureAccess);

/// Whether two uses are of the same texture with the same access.
pub open spec fn same_use(a: TextureUse, b: TextureUse) -> bool {
    a.0@ == b.0@ && a.1 == b.1
}

/// Whether one of `reads` is also one of `writes`.
pub open spec fn reads_written(reads: Seq<TextureUse>, writes: Seq<TextureUse>) -> bool {
    exists|r: int, w: int|
        0 <= r < reads.len() && 0 <= w < writes.len() && #[trigger] same_use(reads[r], writes[w])
}

/// A piece of work on the device: the textures it reads and writes, and the
/// callback of type `C` that records it.
pub struct Pass<C> {
    name: String,
    reads: Vec<TextureUse>,
    writes: Vec<TextureUse>,
    callback: Option<C>,
}

/// What a pass holds.
#[verifier::ext_equal]
pub struct PassView<C> {
    pub name: String,
    pub reads: Seq<TextureUse>,
    pub writes: Seq<TextureUse>,
    pub callback: Option<C>,
}

impl<C> View for Pass<C> {
    type V = PassView<C>;

    closed spec fn view(&self) -> PassView<C> {
        PassView {
            name: self.name,
            reads: self.reads@,
            writes: self.writes@,
            callback: self.callback,
        }
    }
}

/// The views of passes.
pub open spec fn desc_views<C>(passes: Seq<Pass<C>>) -> Seq<PassView<C>> {
    Seq::new(passes.len(), |i: int| passes[i]@)
}

impl<C> Pass<C> {
    /// A pass that touches no texture and records nothing.
    pub fn new<S: Into<String>>(name: S) -> (pass: Self)
        ensures
            call_ensures(S::into, (name,), pass@.name),
            pass@.reads == Seq::<TextureUse>::empty(),
            pass@.writes == Seq::<TextureUse>::empty(),
            pass@.callback == None::<C>,
    {
        Pass { callback: None, reads: Vec::new(), writes: Vec::new(), name: name.into() }
    }

    /// Declares a color attachment. Attachments are not tracked yet, the pass
    /// stays as it is.
    pub fn color_attachment(
        self,
        handle: Handle<FrameGraphTexture>,
        load: AttachmentLoadOp,
        store: AttachmentStoreOp,
    ) -> (pass: Self)
        ensures
            pass == self,
    {
        self
    }

    /// Declares the depth attachment. Attachments are not tracked yet, the
    /// pass stays as it is.
    pub fn depth_attachment(self, handle: Handle<FrameGraphTexture>) -> (pass: Self)
        ensures
            pass == self,
    {
        self
    }

    /// Declares that the pass reads a texture.
    pub fn read(self, handle: Handle<FrameGraphTexture>, access: TextureAccess) -> (pass: Self)
        ensures
            pass@ == (PassView { reads: self@.reads.push((handle, access)), ..self@ }),
    {
        let mut pass = self;
        pass.reads.push((handle, access));
        pass
    }

    /// Declares that the pass writes a texture.
    pub fn write(self, handle: Handle<FrameGraphTexture>, access: TextureAccess) -> (pass: Self)
        ensures
            pass@ == (PassView { writes: self@.writes.push((handle, access)), ..self@ }),
    {
        let mut pass = self;
        pass.writes.push((handle, access));
        pass
    }

    /// Sets the callback that records the pass.
    pub fn execute(self, callback: C) -> (pass: Self)
        ensures
            pass@ == (PassView { callback: Some(callback), ..self@ }),
    {
        let mut pass = self;
        pass.callback = Some(callback);
        pass
    }

    /// The name of the pass.
    pub fn name(&self) -> (name: &String)
        ensures
            *name == self@.name,
    {
        &self.name
    }

    /// The textures that the pass reads.
    pub fn reads(&self) -> (reads: &Vec<TextureUse>)
        ensures
            reads@ == self@.reads,
    {
        &self.reads
    }

    /// The textures that the pass writes.
    pub fn writes(&self) -> (writes: &Vec<TextureUse>)
        ensures
            writes@ == self@.writes,
    {
        &self.writes
    }

    /// Takes the callback out of the pass.
    pub(crate) fn take_callback(&mut self) -> (callback: Option<C>)
        ensures
            callback == old(self)@.callback,
            final(self)@ == (PassView { callback: None, ..old(self)@ }),
    {
        self.callback.take()
    }

    /// Whether the pass reads, with the same access, a texture that `other`
    /// writes.
    pub(crate) fn reads_from(&self, other: &Self) -> (found: bool)
        ensures
            found == reads_written(self@.reads, other@.writes),
    {
        for r in 0..self.reads.len()
            invariant
                forall|i: int, w: int|
                    0 <= i < r && 0 <= w < other.writes@.len() ==> !#[trigger] same_use(
                        self.reads@[i],
                        other.writes@[w],
                    ),
        {
            let read = self.reads[r];
            for w in 0..other.writes.len()
                invariant
                    r < self.reads@.len(),
                    read == self.reads@[r as int],
                    forall|i: int|
                        0 <= i < w ==> !#[trigger] same_use(
                            self.reads@[r as int],
                            other.writes@[i],
                        ),
            {
                let written = other.writes[w];
                if read.0 == written.0 && read.1 == written.1 {
                    assert(same_use(self.reads@[r as int], other.writes@[w as int]));
                    return true;
                }
            }
        }
        false
    }
}

} // verus!

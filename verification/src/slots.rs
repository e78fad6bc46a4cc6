//! The textures of a scope, each under a key that no other live texture has.

use slotmap::{DefaultKey, Key, KeyData, SlotMap};
use vstd::prelude::*;
use crate::handle::Handle;
use crate::types::FrameGraphTexture;

verus! {

/// How many textures a scope can hold at most.
pub const MAX_TEXTURES: u32 = 0xffff_fffe;

/// A `slotmap::SlotMap` of textures. Keys go in and out as the integers of
/// `slotmap::KeyData::as_ffi`.
#[verifier::external_body]
pub struct TextureSlots {
    slots: SlotMap<DefaultKey, FrameGraphTexture>,
}

/// The textures that a slot map holds, each under the integer of its key.
pub uninterp spec fn contents(slots: TextureSlots) -> Map<u64, FrameGraphTexture>;

/// The integers of all keys that a slot map has given out, as far as its slots
/// remember: for each slot those with its versions from the first to the present
/// one.
pub uninterp spec fn issued(slots: TextureSlots) -> Set<u64>;

/// Whether an integer is that of a key: its upper half is the version of an
/// occupied slot, which is odd.
pub open spec fn is_key(key: u64) -> bool {
    (key / 0x1_0000_0000) % 2 == 1
}

/// The key with the last version that the slot of `key` can have.
pub open spec fn last_key(key: u64) -> u64 {
    (0xffff_ffff_0000_0000 + key % 0x1_0000_0000) as u64
}

/// Whether the slot of a key holds a texture under its last version. Such a slot
/// begins anew once the texture is gone, and then gives out keys that it gave out
/// before.
pub open spec fn slot_is_worn_out(textures: Map<u64, FrameGraphTexture>, key: u64) -> bool {
    textures.contains_key(last_key(key))
}

/// The keys that are remembered once all textures are gone: those of slots that do
/// not begin anew.
pub open spec fn remembered(keys: Set<u64>, textures: Map<u64, FrameGraphTexture>) -> Set<u64> {
    keys.filter(|key: u64| !slot_is_worn_out(textures, key))
}

impl View for TextureSlots {
    type V = Map<u64, FrameGraphTexture>;

    open spec fn view(&self) -> Map<u64, FrameGraphTexture> {
        contents(*self)
    }
}

/// What holds of the textures in a slot map: they are finitely many, and each
/// is under the integer of a key.
pub open spec fn well_keyed(textures: Map<u64, FrameGraphTexture>) -> bool {
    &&& textures.dom().finite()
    &&& forall|key: u64| #[trigger] textures.contains_key(key) ==> is_key(key)
}

impl TextureSlots {
    /// Calls `slotmap::SlotMap::with_key`: the new slot map is empty and has
    /// given out no key.
    #[verifier::external_body]
    pub(crate) fn with_key() -> (slots: Self)
        ensures
            (contents(slots) == Map::<u64, FrameGraphTexture>::empty()),
            issued(slots) == Set::<u64>::empty(),
    {
        TextureSlots { slots: SlotMap::with_key() }
    }

    /// Calls `slotmap::SlotMap::insert`: the texture is stored under the key
    /// that is returned, which was not in use, and nothing else changes. Its
    /// slot is a new one or a vacant one, whose version goes up by one, so the
    /// key is none of those given out before. The call panics on a slot map that
    /// is full.
    #[verifier::external_body]
    pub(crate) fn insert(&mut self, texture: FrameGraphTexture) -> (key: u64)
        requires
            contents(*old(self)).dom().finite(),
            contents(*old(self)).len() < MAX_TEXTURES,
        ensures
            is_key(key),
            !contents(*old(self)).contains_key(key),
            contents(*final(self)) == contents(*old(self)).insert(key, texture),
            !issued(*old(self)).contains(key),
            issued(*final(self)) == issued(*old(self)).insert(key),
    {
        self.slots.insert(texture).data().as_ffi()
    }

    /// Calls `slotmap::SlotMap::get`: the texture under the key, if there is
    /// one. `KeyData::from_ffi` gives back the key whose integer it is handed;
    /// of an integer that is no key's it makes some key.
    #[verifier::external_body]
    pub(crate) fn get(&self, key: u64) -> (texture: Option<&FrameGraphTexture>)
        requires
            is_key(key),
        ensures
            texture is Some <==> contents(*self).contains_key(key),
            texture matches Some(t) ==> *t == contents(*self)[key],
    {
        self.slots.get(KeyData::from_ffi(key).into())
    }

    /// Calls `slotmap::SlotMap::get_mut`: the texture under the key, if there
    /// is one, to be changed in place; no other changes, and no key is given
    /// out.
    #[verifier::external_body]
    pub(crate) fn get_mut(&mut self, key: u64) -> (texture: Option<&mut FrameGraphTexture>)
        requires
            is_key(key),
        ensures
            texture is Some <==> contents(*old(self)).contains_key(key),
            texture matches Some(t) ==> *t == contents(*old(self))[key] && contents(*final(self))
                == contents(*old(self)).insert(key, *final(t)),
            texture is None ==> contents(*final(self)) == contents(*old(self)),
            issued(*final(self)) == issued(*old(self)),
    {
        self.slots.get_mut(KeyData::from_ffi(key).into())
    }

    /// Calls `slotmap::SlotMap::clear`: nothing is left in the slot map. The
    /// version of each slot that held a texture goes up by one, so the slots
    /// remember their keys. From the last version it wraps to zero, and such a
    /// slot remembers none.
    #[verifier::external_body]
    pub(crate) fn clear(&mut self)
        ensures
            (contents(*final(self)) == Map::<u64, FrameGraphTexture>::empty()),
            issued(*final(self)) == remembered(issued(*old(self)), contents(*old(self))),
    {
        self.slots.clear()
    }

    /// Calls `slotmap::SlotMap::len`: the number of textures.
    #[verifier::external_body]
    pub(crate) fn len(&self) -> (count: usize)
        ensures
            count == contents(*self).len(),
    {
        self.slots.len()
    }

    /// The texture under the key of a handle, if it is still there.
    pub(crate) fn find(&self, handle: Handle<FrameGraphTexture>) -> (texture: Option<
        &FrameGraphTexture,
    >)
        requires
            well_keyed(self@),
        ensures
            texture is Some <==> self@.contains_key(handle@),
            texture matches Some(t) ==> *t == self@[handle@],
    {
        let key = handle.key();
        if (key / 0x1_0000_0000) % 2 == 1 {
            self.get(key)
        } else {
            None
        }
    }
}

} // verus!

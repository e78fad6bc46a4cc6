//! The barriers between the uses of a texture.

use vstd::prelude::*;
use crate::access::{match_access, ImageLayout, MemoryAccess, PipelineStage, TextureAccess};
use crate::pass::TextureUse;
use crate::slots::{contents, issued, well_keyed, TextureSlots};
use crate::types::{FrameGraphTexture, Image};

verus! {

/// `VK_IMAGE_ASPECT_COLOR_BIT`.
pub const IMAGE_ASPECT_COLOR: u32 = 1;

/// `VK_QUEUE_FAMILY_IGNORED`.
pub const QUEUE_FAMILY_IGNORED: u32 = 0xffff_ffff;

/// The part of an image that a barrier is about.
#[derive(Clone, Copy, PartialEq, Eq, Structural, Debug)]
pub struct ImageSubresourceRange {
    pub aspect_mask: u32,
    pub base_mip_level: u32,
    pub level_count: u32,
    pub base_array_layer: u32,
    pub layer_count: u32,
}

/// A `VkImageMemoryBarrier2`: accesses of the source stage to the image come
/// before those of the destination stage, and its layout changes in between.
#[derive(Clone, Copy, PartialEq, Eq, Structural, Debug)]
pub struct ImageBarrier {
    pub src_stage: PipelineStage,
    pub src_access: MemoryAccess,
    pub dst_stage: PipelineStage,
    pub dst_access: MemoryAccess,
    pub old_layout: ImageLayout,
    pub new_layout: ImageLayout,
    pub src_queue_family_index: u32,
    pub dst_queue_family_index: u32,
    pub image: Image,
    pub subresource_range: ImageSubresourceRange,
}

/// The barrier that takes an image from one access to another.
pub open spec fn barrier_between(
    from: TextureAccess,
    to: TextureAccess,
    image: Image,
) -> ImageBarrier {
    ImageBarrier {
        src_stage: from.stage(),
        src_access: from.memory(),
        dst_stage: to.stage(),
        dst_access: to.memory(),
        old_layout: from.layout(),
        new_layout: to.layout(),
        src_queue_family_index: QUEUE_FAMILY_IGNORED,
        dst_queue_family_index: QUEUE_FAMILY_IGNORED,
        image,
        subresource_range: ImageSubresourceRange {
            aspect_mask: IMAGE_ASPECT_COLOR,
            base_mip_level: 0,
            level_count: 1,
            base_array_layer: 0,
            layer_count: 1,
        },
    }
}

/// The textures after one of them was used.
pub open spec fn after_use(
    textures: Map<u64, FrameGraphTexture>,
    texture_use: TextureUse,
) -> Map<u64, FrameGraphTexture> {
    let key = texture_use.0@;
    textures.insert(key, FrameGraphTexture { last_access: texture_use.1, ..textures[key] })
}

/// The barriers that a use calls for: one, unless the texture was last used
/// with the same access.
pub open spec fn use_barriers(
    textures: Map<u64, FrameGraphTexture>,
    texture_use: TextureUse,
) -> Seq<ImageBarrier> {
    let texture = textures[texture_use.0@];
    if texture.last_access == texture_use.1 {
        Seq::empty()
    } else {
        seq![barrier_between(texture.last_access, texture_use.1, texture.image)]
    }
}

/// The textures after a run of uses.
pub open spec fn after_uses(
    textures: Map<u64, FrameGraphTexture>,
    uses: Seq<TextureUse>,
) -> Map<u64, FrameGraphTexture>
    decreases uses.len(),
{
    if uses.len() == 0 {
        textures
    } else {
        after_use(after_uses(textures, uses.drop_last()), uses.last())
    }
}

/// The barriers that a run of uses calls for, in the order of the uses.
pub open spec fn uses_barriers(
    textures: Map<u64, FrameGraphTexture>,
    uses: Seq<TextureUse>,
) -> Seq<ImageBarrier>
    decreases uses.len(),
{
    if uses.len() == 0 {
        Seq::empty()
    } else {
        uses_barriers(textures, uses.drop_last()) + use_barriers(
            after_uses(textures, uses.drop_last()),
            uses.last(),
        )
    }
}

/// Whether barriers can be made for a use: the texture is there, and both the
/// access that it was last used with and the new one are supported.
pub open spec fn use_ready(textures: Map<u64, FrameGraphTexture>, texture_use: TextureUse) -> bool {
    &&& textures.contains_key(texture_use.0@)
    &&& textures[texture_use.0@].last_access.supported()
    &&& texture_use.1.supported()
}

/// Whether barriers can be made for each of `uses`.
pub open spec fn uses_ready(textures: Map<u64, FrameGraphTexture>, uses: Seq<TextureUse>) -> bool {
    forall|i: int| 0 <= i < uses.len() ==> #[trigger] use_ready(textures, uses[i])
}

/// The access that the last of `uses` that is of the texture under `key` asks
/// for.
pub open spec fn last_use(uses: Seq<TextureUse>, key: u64) -> Option<TextureAccess>
    decreases uses.len(),
{
    if uses.len() == 0 {
        None
    } else if uses.last().0@ == key {
        Some(uses.last().1)
    } else {
        last_use(uses.drop_last(), key)
    }
}

/// A run of uses leaves every texture in place, with its image and its memory,
/// and with the access that it was last used with.
pub proof fn law_uses_track_access(
    textures: Map<u64, FrameGraphTexture>,
    uses: Seq<TextureUse>,
    key: u64,
)
    requires
        uses_ready(textures, uses),
    ensures
        after_uses(textures, uses).dom() == textures.dom(),
        textures.contains_key(key) ==> after_uses(textures, uses)[key] == (FrameGraphTexture {
            last_access: match last_use(uses, key) {
                Some(access) => access,
                None => textures[key].last_access,
            },
            ..textures[key]
        }),
    decreases uses.len(),
{
    if uses.len() > 0 {
        let rest = uses.drop_last();
        assert(uses_ready(textures, rest)) by {
            assert forall|i: int| 0 <= i < rest.len() implies #[trigger] use_ready(
                textures,
                rest[i],
            ) by {
                assert(use_ready(textures, uses[i]));
            }
        }
        assert(use_ready(textures, uses[uses.len() - 1]));
        law_uses_track_access(textures, rest, key);
        law_uses_track_access(textures, rest, uses.last().0@);
        assert(after_uses(textures, uses).dom() =~= textures.dom());
    }
}

/// Textures that already have the access that they are used with need no
/// barrier.
pub proof fn law_settled_uses_need_no_barriers(
    textures: Map<u64, FrameGraphTexture>,
    uses: Seq<TextureUse>,
)
    requires
        forall|i: int|
            0 <= i < uses.len() ==> textures.contains_key((#[trigger] uses[i]).0@)
                && textures[uses[i].0@].last_access == uses[i].1,
    ensures
        uses_barriers(textures, uses) == Seq::<ImageBarrier>::empty(),
        after_uses(textures, uses) == textures,
    decreases uses.len(),
{
    if uses.len() > 0 {
        let rest = uses.drop_last();
        assert forall|i: int| 0 <= i < rest.len() implies textures.contains_key(
            (#[trigger] rest[i]).0@,
        ) && textures[rest[i].0@].last_access == rest[i].1 by {
            assert(rest[i] == uses[i]);
        }
        law_settled_uses_need_no_barriers(textures, rest);
        assert(uses[uses.len() - 1] == uses.last());
        assert(after_use(textures, uses.last()) =~= textures);
    }
}

/// Every barrier is one of a texture that is used, and takes it from the access
/// that it had by then to another one.
pub proof fn law_barriers_change_access(
    textures: Map<u64, FrameGraphTexture>,
    uses: Seq<TextureUse>,
    b: int,
)
    requires
        0 <= b < uses_barriers(textures, uses).len(),
    ensures
        exists|i: int|
            0 <= i < uses.len() && ({
                let texture = (#[trigger] after_uses(textures, uses.take(i)))[uses[i].0@];
                &&& texture.last_access != uses[i].1
                &&& uses_barriers(textures, uses)[b] == barrier_between(
                    texture.last_access,
                    uses[i].1,
                    texture.image,
                )
            }),
    decreases uses.len(),
{
    if uses.len() > 0 {
        let rest = uses.drop_last();
        if b < uses_barriers(textures, rest).len() {
            law_barriers_change_access(textures, rest, b);
            let i = choose|i: int|
                0 <= i < rest.len() && ({
                    let texture = (#[trigger] after_uses(textures, rest.take(i)))[rest[i].0@];
                    &&& texture.last_access != rest[i].1
                    &&& uses_barriers(textures, rest)[b] == barrier_between(
                        texture.last_access,
                        rest[i].1,
                        texture.image,
                    )
                });
            assert(uses.take(i) =~= rest.take(i));
            assert(uses[i] == rest[i]);
        } else {
            assert(uses.take(uses.len() - 1) =~= rest);
        }
    }
}

/// The layout of an image after barriers, if it was `layout` before.
pub open spec fn layout_after(
    barriers: Seq<ImageBarrier>,
    image: Image,
    layout: ImageLayout,
) -> ImageLayout
    decreases barriers.len(),
{
    if barriers.len() == 0 {
        layout
    } else if barriers.last().image == image {
        barriers.last().new_layout
    } else {
        layout_after(barriers.drop_last(), image, layout)
    }
}

/// Whether each barrier for an image finds it in the layout that it takes it
/// from, if it was in `layout` before.
pub open spec fn follows_layout(
    barriers: Seq<ImageBarrier>,
    image: Image,
    layout: ImageLayout,
) -> bool {
    forall|b: int|
        0 <= b < barriers.len() && (#[trigger] barriers[b]).image == image
            ==> barriers[b].old_layout == layout_after(barriers.take(b), image, layout)
}

/// Barriers that follow the layout can follow others that do.
pub(crate) proof fn lemma_follows_on(
    first: Seq<ImageBarrier>,
    second: Seq<ImageBarrier>,
    image: Image,
    layout: ImageLayout,
)
    ensures
        layout_after(first + second, image, layout) == layout_after(
            second,
            image,
            layout_after(first, image, layout),
        ),
        follows_layout(first, image, layout) && follows_layout(
            second,
            image,
            layout_after(first, image, layout),
        ) ==> follows_layout(first + second, image, layout),
    decreases second.len(),
{
    let both = first + second;
    if second.len() == 0 {
        assert(both =~= first);
    } else {
        let rest = second.drop_last();
        assert(both.drop_last() =~= first + rest);
        lemma_follows_on(first, rest, image, layout);
        if follows_layout(first, image, layout) && follows_layout(
            second,
            image,
            layout_after(first, image, layout),
        ) {
            assert forall|b: int|
                0 <= b < rest.len() && (#[trigger] rest[b]).image
                    == image implies rest[b].old_layout == layout_after(
                rest.take(b),
                image,
                layout_after(first, image, layout),
            ) by {
                assert(rest[b] == second[b]);
                assert(rest.take(b) =~= second.take(b));
            }
            assert forall|b: int|
                0 <= b < both.len() && (#[trigger] both[b]).image
                    == image implies both[b].old_layout == layout_after(
                both.take(b),
                image,
                layout,
            ) by {
                if b < both.len() - 1 {
                    assert((first + rest)[b] == both[b]);
                    assert((first + rest).take(b) =~= both.take(b));
                } else {
                    assert(both.take(b) =~= first + rest);
                    assert(second[second.len() - 1] == both[b]);
                    assert(second.take(second.len() - 1) =~= rest);
                }
            }
        }
    }
}

/// Whether no other texture has the image of the one under `key`.
pub open spec fn has_own_image(textures: Map<u64, FrameGraphTexture>, key: u64) -> bool {
    &&& textures.contains_key(key)
    &&& forall|other: u64| #[trigger]
        textures.contains_key(other) && textures[other].image == textures[key].image ==> other
            == key
}

/// Barriers chain: each one takes the image from the layout that it is in by
/// then, and after all of them it is in the layout of the access that it was
/// last used with.
pub proof fn law_barriers_follow_layout(
    textures: Map<u64, FrameGraphTexture>,
    uses: Seq<TextureUse>,
    key: u64,
)
    requires
        uses_ready(textures, uses),
        has_own_image(textures, key),
    ensures
        follows_layout(
            uses_barriers(textures, uses),
            textures[key].image,
            textures[key].last_access.layout(),
        ),
        layout_after(
            uses_barriers(textures, uses),
            textures[key].image,
            textures[key].last_access.layout(),
        ) == after_uses(textures, uses)[key].last_access.layout(),
        has_own_image(after_uses(textures, uses), key),
    decreases uses.len(),
{
    if uses.len() > 0 {
        let rest = uses.drop_last();
        let image = textures[key].image;
        let layout = textures[key].last_access.layout();
        assert forall|i: int| 0 <= i < rest.len() implies #[trigger] use_ready(
            textures,
            rest[i],
        ) by {
            assert(use_ready(textures, uses[i]));
        }
        assert(use_ready(textures, uses[uses.len() - 1]));
        law_barriers_follow_layout(textures, rest, key);
        let before = after_uses(textures, rest);
        let last = use_barriers(before, uses.last());
        law_uses_track_access(textures, rest, key);
        law_uses_track_access(textures, rest, uses.last().0@);
        law_uses_track_access(textures, uses, key);
        assert(before.dom().contains(key) && before.dom().contains(uses.last().0@));
        if last.len() > 0 {
            assert(last.drop_last() =~= Seq::empty());
            assert(last.take(0) =~= Seq::empty());
        }
        if uses.last().0@ != key {
            assert(before.contains_key(uses.last().0@));
            assert(before[uses.last().0@].image != image);
        }
        assert(layout_after(last, image, before[key].last_access.layout()) == after_use(
            before,
            uses.last(),
        )[key].last_access.layout()) by {
            reveal_with_fuel(layout_after, 2);
        }
        lemma_follows_on(uses_barriers(textures, rest), last, image, layout);
        assert forall|other: u64| #[trigger]
            after_uses(textures, uses).contains_key(other) && after_uses(
                textures,
                uses,
            )[other].image == after_uses(textures, uses)[key].image implies other == key by {
            law_uses_track_access(textures, uses, other);
            assert(textures.contains_key(other));
        }
    }
}

/// What could be used before a run of uses can be used after it.
pub(crate) proof fn lemma_ready_after(
    textures: Map<u64, FrameGraphTexture>,
    uses: Seq<TextureUse>,
    others: Seq<TextureUse>,
)
    requires
        uses_ready(textures, uses),
        uses_ready(textures, others),
    ensures
        uses_ready(after_uses(textures, uses), others),
{
    assert forall|i: int| 0 <= i < others.len() implies #[trigger] use_ready(
        after_uses(textures, uses),
        others[i],
    ) by {
        assert(use_ready(textures, others[i]));
        let key = others[i].0@;
        law_uses_track_access(textures, uses, key);
        lemma_last_use_supported(textures, uses, key);
        assert(after_uses(textures, uses).dom().contains(key));
    }
}

proof fn lemma_last_use_supported(
    textures: Map<u64, FrameGraphTexture>,
    uses: Seq<TextureUse>,
    key: u64,
)
    requires
        uses_ready(textures, uses),
    ensures
        last_use(uses, key) matches Some(access) ==> access.supported(),
    decreases uses.len(),
{
    if uses.len() > 0 {
        let rest = uses.drop_last();
        assert forall|i: int| 0 <= i < rest.len() implies #[trigger] use_ready(
            textures,
            rest[i],
        ) by {
            assert(use_ready(textures, uses[i]));
        }
        assert(use_ready(textures, uses[uses.len() - 1]));
        lemma_last_use_supported(textures, rest, key);
    }
}

/// Whether barriers can be made for each of `uses`.
pub(crate) fn can_use_all(textures: &TextureSlots, uses: &Vec<TextureUse>) -> (ready: bool)
    requires
        well_keyed(textures@),
    ensures
        ready == uses_ready(textures@, uses@),
{
    for i in 0..uses.len()
        invariant
            well_keyed(textures@),
            forall|k: int| 0 <= k < i ==> #[trigger] use_ready(textures@, uses@[k]),
    {
        let ready = match textures.find(uses[i].0) {
            Some(texture) => texture.last_access.is_supported() && uses[i].1.is_supported(),
            None => false,
        };
        if !ready {
            assert(!use_ready(textures@, uses@[i as int]));
            return false;
        }
    }
    true
}

/// Uses a texture, and adds to `barriers` the one that this calls for, if any.
fn transition(
    textures: &mut TextureSlots,
    texture_use: TextureUse,
    barriers: &mut Vec<ImageBarrier>,
)
    requires
        well_keyed(contents(*old(textures))),
        use_ready(contents(*old(textures)), texture_use),
    ensures
        contents(*final(textures)) == after_use(contents(*old(textures)), texture_use),
        issued(*final(textures)) == issued(*old(textures)),
        final(barriers)@ == old(barriers)@ + use_barriers(contents(*old(textures)), texture_use),
        ({
            let before = contents(*old(textures))[texture_use.0@];
            &&& contents(*final(textures))[texture_use.0@].last_access == texture_use.1
            &&& before.last_access == texture_use.1 ==> final(barriers)@ == old(barriers)@
            &&& before.last_access != texture_use.1 ==> final(barriers)@.len() == old(
                barriers,
            )@.len() + 1 && separates(
                final(barriers)@.last(),
                before.last_access,
                texture_use.1,
                before.image,
            )
        }),
{
    let access = texture_use.1;
    if let Some(texture) = textures.get_mut(texture_use.0.key()) {
        let (src_stage, src_access, src_layout) = match_access(texture.last_access);
        let (dst_stage, dst_access, dst_layout) = match_access(access);
        if src_layout == dst_layout && texture.last_access == access {
            return;
        }
        barriers.push(
            ImageBarrier {
                src_stage,
                src_access,
                dst_stage,
                dst_access,
                old_layout: src_layout,
                new_layout: dst_layout,
                src_queue_family_index: QUEUE_FAMILY_IGNORED,
                dst_queue_family_index: QUEUE_FAMILY_IGNORED,
                image: texture.image,
                subresource_range: ImageSubresourceRange {
                    aspect_mask: IMAGE_ASPECT_COLOR,
                    base_mip_level: 0,
                    level_count: 1,
                    base_array_layer: 0,
                    layer_count: 1,
                },
            },
        );
        texture.last_access = access;
    }
}

/// Uses textures one after the other, and adds to `barriers` those that this
/// calls for.
pub(crate) fn transition_all(
    textures: &mut TextureSlots,
    uses: &Vec<TextureUse>,
    barriers: &mut Vec<ImageBarrier>,
)
    requires
        well_keyed(contents(*old(textures))),
        uses_ready(contents(*old(textures)), uses@),
    ensures
        contents(*final(textures)) == after_uses(contents(*old(textures)), uses@),
        well_keyed(contents(*final(textures))),
        issued(*final(textures)) == issued(*old(textures)),
        final(barriers)@ == old(barriers)@ + uses_barriers(contents(*old(textures)), uses@),
{
    let ghost start = contents(*textures);
    let ghost begun = barriers@;
    for i in 0..uses.len()
        invariant
            well_keyed(start),
            uses_ready(start, uses@),
            contents(*textures) == after_uses(start, uses@.take(i as int)),
            issued(*textures) == issued(*old(textures)),
            barriers@ == begun + uses_barriers(start, uses@.take(i as int)),
    {
        let ghost past = uses@.take(i as int);
        proof {
            assert(uses@.take(i + 1).drop_last() =~= past);
            assert forall|k: int| 0 <= k < past.len() implies #[trigger] use_ready(
                start,
                past[k],
            ) by {
                assert(use_ready(start, uses@[k]));
            }
            lemma_ready_after(start, past, uses@);
            assert(use_ready(contents(*textures), uses@[i as int]));
            law_uses_track_access(start, past, 0);
        }
        transition(textures, uses[i], barriers);
        assert(barriers@ =~= begun + uses_barriers(start, uses@.take(i + 1)));
    }
    proof {
        assert(uses@.take(uses@.len() as int) =~= uses@);
        law_uses_track_access(start, uses@, 0);
    }
}


/// The access that a texture is in after a run of uses is that of the last use of
/// it, at `j`, or the one that it had, if there is no use of it; its image and its
/// memory stay.
pub proof fn law_last_use_counts(
    textures: Map<u64, FrameGraphTexture>,
    uses: Seq<TextureUse>,
    key: u64,
    j: int,
)
    requires
        -1 <= j < uses.len(),
        j >= 0 ==> uses[j].0@ == key,
        forall|i: int| j < i < uses.len() ==> (#[trigger] uses[i]).0@ != key,
    ensures
        j >= 0 ==> after_uses(textures, uses)[key].last_access == uses[j].1,
        j < 0 ==> after_uses(textures, uses)[key].last_access == textures[key].last_access,
        after_uses(textures, uses)[key].image == textures[key].image,
        after_uses(textures, uses)[key].allocation == textures[key].allocation,
    decreases uses.len(),
{
    if uses.len() > 0 {
        let rest = uses.drop_last();
        if j < rest.len() {
            assert(uses[uses.len() - 1].0@ != key);
            law_last_use_counts(textures, rest, key, j);
        } else {
            lemma_keeps_image(textures, rest, key);
        }
    }
}

proof fn lemma_keeps_image(
    textures: Map<u64, FrameGraphTexture>,
    uses: Seq<TextureUse>,
    key: u64,
)
    ensures
        after_uses(textures, uses)[key].image == textures[key].image,
        after_uses(textures, uses)[key].allocation == textures[key].allocation,
    decreases uses.len(),
{
    if uses.len() > 0 {
        lemma_keeps_image(textures, uses.drop_last(), key);
    }
}

/// Whether a barrier keeps accesses of `from` to an image apart from later ones of
/// `to`: it waits for the stage and makes available the memory access of `from`,
/// blocks the stage and makes visible to the memory access of `to`, and takes the
/// whole image from the layout of `from` to that of `to`, on its queue.
pub open spec fn separates(
    barrier: ImageBarrier,
    from: TextureAccess,
    to: TextureAccess,
    image: Image,
) -> bool {
    &&& barrier.src_stage == from.stage()
    &&& barrier.src_access == from.memory()
    &&& barrier.old_layout == from.layout()
    &&& barrier.dst_stage == to.stage()
    &&& barrier.dst_access == to.memory()
    &&& barrier.new_layout == to.layout()
    &&& barrier.image == image
    &&& barrier.src_queue_family_index == 0xffff_ffff
    &&& barrier.dst_queue_family_index == 0xffff_ffff
    &&& barrier.subresource_range.aspect_mask == 1
    &&& barrier.subresource_range.base_mip_level == 0
    &&& barrier.subresource_range.level_count == 1
    &&& barrier.subresource_range.base_array_layer == 0
    &&& barrier.subresource_range.layer_count == 1
}

/// What the use at `k` adds to the barriers, where `j` is the last use of the same
/// texture before it, or `-1`: nothing, if the texture is in the access already;
/// if not, one barrier, in every field from the access that the texture is in by
/// then to the one that the use asks for.
pub proof fn law_barrier_of_a_use(
    textures: Map<u64, FrameGraphTexture>,
    uses: Seq<TextureUse>,
    k: int,
    j: int,
)
    requires
        0 <= k < uses.len(),
        -1 <= j < k,
        j >= 0 ==> uses[j].0@ == uses[k].0@,
        forall|i: int| j < i < k ==> (#[trigger] uses[i]).0@ != uses[k].0@,
    ensures
        ({
            let texture = textures[uses[k].0@];
            let from = if j < 0 {
                texture.last_access
            } else {
                uses[j].1
            };
            let to = uses[k].1;
            let before = uses_barriers(textures, uses.take(k));
            let now = uses_barriers(textures, uses.take(k + 1));
            &&& from == to ==> now == before
            &&& from != to ==> {
                &&& now.len() == before.len() + 1
                &&& now.take(before.len() as int) == before
                &&& now.last().src_stage == from.stage()
                &&& now.last().src_access == from.memory()
                &&& now.last().old_layout == from.layout()
                &&& now.last().dst_stage == to.stage()
                &&& now.last().dst_access == to.memory()
                &&& now.last().new_layout == to.layout()
                &&& now.last().image == texture.image
                &&& separates(now.last(), from, to, texture.image)
            }
        }),
{
    let past = uses.take(k);
    assert(uses.take(k + 1).drop_last() =~= past);
    assert(uses.take(k + 1).last() == uses[k]);
    assert forall|i: int| j < i < past.len() implies (#[trigger] past[i]).0@ != uses[k].0@ by {
        assert(past[i] == uses[i]);
    }
    if j >= 0 {
        assert(past[j] == uses[j]);
    }
    law_last_use_counts(textures, past, uses[k].0@, j);
    let before = uses_barriers(textures, past);
    let now = uses_barriers(textures, uses.take(k + 1));
    assert(now.take(before.len() as int) =~= before);
    assert(now.len() == before.len() ==> now =~= before);
}

/// Barriers come one use after the other: those of the first uses come first, and
/// without uses there are none.
pub proof fn law_barriers_come_in_order(
    textures: Map<u64, FrameGraphTexture>,
    first: Seq<TextureUse>,
    second: Seq<TextureUse>,
)
    ensures
        uses_barriers(textures, first + second) == uses_barriers(textures, first) + uses_barriers(
            after_uses(textures, first),
            second,
        ),
        after_uses(textures, first + second) == after_uses(after_uses(textures, first), second),
        second.len() == 0 ==> uses_barriers(textures, second).len() == 0,
        second.len() == 0 ==> after_uses(textures, second) == textures,
    decreases second.len(),
{
    if second.len() == 0 {
        assert(first + second =~= first);
        assert(uses_barriers(textures, first) + Seq::<ImageBarrier>::empty() =~= uses_barriers(
            textures,
            first,
        ));
    } else {
        let rest = second.drop_last();
        law_barriers_come_in_order(textures, first, rest);
        assert((first + second).drop_last() =~= first + rest);
        assert((first + second).last() == second.last());
        assert(uses_barriers(textures, first + second) =~= uses_barriers(textures, first)
            + uses_barriers(after_uses(textures, first), second));
    }
}

/// The last barrier of an image, at `a`, leads to the access that its texture is
/// left in; if there is none, the texture is left as it was.
proof fn lemma_last_barrier(
    textures: Map<u64, FrameGraphTexture>,
    uses: Seq<TextureUse>,
    key: u64,
    a: int,
)
    requires
        uses_ready(textures, uses),
        has_own_image(textures, key),
        -1 <= a < uses_barriers(textures, uses).len(),
        a >= 0 ==> uses_barriers(textures, uses)[a].image == textures[key].image,
        forall|i: int|
            a < i < uses_barriers(textures, uses).len() ==> (#[trigger] uses_barriers(
                textures,
                uses,
            )[i]).image != textures[key].image,
    ensures
        ({
            let left = after_uses(textures, uses)[key].last_access;
            let barriers = uses_barriers(textures, uses);
            &&& a >= 0 ==> barriers[a].dst_stage == left.stage() && barriers[a].dst_access
                == left.memory() && barriers[a].new_layout == left.layout()
            &&& a < 0 ==> left == textures[key].last_access
        }),
    decreases uses.len(),
{
    if uses.len() > 0 {
        let rest = uses.drop_last();
        let earlier = uses_barriers(textures, rest);
        let barriers = uses_barriers(textures, uses);
        let used = uses.last().0@;
        assert forall|i: int| 0 <= i < rest.len() implies #[trigger] use_ready(
            textures,
            rest[i],
        ) by {
            assert(use_ready(textures, uses[i]));
        }
        assert(use_ready(textures, uses[uses.len() - 1]));
        lemma_keeps_image(textures, rest, used);
        if a < earlier.len() {
            assert(a >= 0 ==> barriers[a] == earlier[a]);
            assert forall|i: int| a < i < earlier.len() implies (#[trigger] earlier[i]).image
                != textures[key].image by {
                assert(barriers[i] == earlier[i]);
            }
            lemma_last_barrier(textures, rest, key, a);
            if used == key && barriers.len() > earlier.len() {
                assert(barriers[earlier.len() as int].image == textures[key].image);
            }
        } else {
            assert(textures.contains_key(used));
        }
    }
}

/// Barriers of an image chain in all that they wait for: each waits for the stage
/// and makes available the memory access that the one before it, at `a`, led to,
/// and starts from its layout; the first one, with `a` as `-1`, starts from the
/// access that the texture had. This is of images that no other texture has.
pub proof fn law_barriers_chain(
    textures: Map<u64, FrameGraphTexture>,
    uses: Seq<TextureUse>,
    key: u64,
    a: int,
    b: int,
)
    requires
        uses_ready(textures, uses),
        has_own_image(textures, key),
        -1 <= a < b < uses_barriers(textures, uses).len(),
        a >= 0 ==> uses_barriers(textures, uses)[a].image == textures[key].image,
        uses_barriers(textures, uses)[b].image == textures[key].image,
        forall|i: int|
            a < i < b ==> (#[trigger] uses_barriers(textures, uses)[i]).image
                != textures[key].image,
    ensures
        ({
            let barriers = uses_barriers(textures, uses);
            let start = textures[key].last_access;
            &&& a >= 0 ==> barriers[b].src_stage == barriers[a].dst_stage && barriers[b].src_access
                == barriers[a].dst_access && barriers[b].old_layout == barriers[a].new_layout
            &&& a < 0 ==> barriers[b].src_stage == start.stage() && barriers[b].src_access
                == start.memory() && barriers[b].old_layout == start.layout()
        }),
    decreases uses.len(),
{
    if uses.len() > 0 {
        let rest = uses.drop_last();
        let earlier = uses_barriers(textures, rest);
        let barriers = uses_barriers(textures, uses);
        let used = uses.last().0@;
        assert forall|i: int| 0 <= i < rest.len() implies #[trigger] use_ready(
            textures,
            rest[i],
        ) by {
            assert(use_ready(textures, uses[i]));
        }
        assert(use_ready(textures, uses[uses.len() - 1]));
        assert(a >= 0 ==> barriers[a] == earlier[a]);
        if b < earlier.len() {
            assert(barriers[b] == earlier[b]);
            assert forall|i: int| a < i < b implies (#[trigger] earlier[i]).image
                != textures[key].image by {
                assert(barriers[i] == earlier[i]);
            }
            law_barriers_chain(textures, rest, key, a, b);
        } else {
            assert forall|i: int| a < i < earlier.len() implies (#[trigger] earlier[i]).image
                != textures[key].image by {
                assert(barriers[i] == earlier[i]);
            }
            lemma_last_barrier(textures, rest, key, a);
            lemma_keeps_image(textures, rest, used);
            assert(textures.contains_key(used));
            assert(used == key);
        }
    }
}

/// A use can get its barrier exactly if its texture is there and neither its access
/// nor the one that the texture is in is one of those that have none.
pub proof fn law_use_is_ready(textures: Map<u64, FrameGraphTexture>, texture_use: TextureUse)
    ensures
        use_ready(textures, texture_use) <==> {
            &&& textures.contains_key(texture_use.0@)
            &&& texture_use.1 != TextureAccess::DepthRead
            &&& texture_use.1 != TextureAccess::TransferSrc
            &&& texture_use.1 != TextureAccess::TransferDst
            &&& textures[texture_use.0@].last_access != TextureAccess::DepthRead
            &&& textures[texture_use.0@].last_access != TextureAccess::TransferSrc
            &&& textures[texture_use.0@].last_access != TextureAccess::TransferDst
        },
{
}

} // verus!

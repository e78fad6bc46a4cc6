use frame_graph::{
    Allocation, AttachmentLoadOp, AttachmentStoreOp, Buffer, Command, Creation, Extent3D,
    FrameGraph, FrameGraphBuffer, FrameGraphCreateDesc, FrameGraphError, FrameGraphResource,
    FrameGraphTexture, FrameScope, Handle, Image, ImageBarrier, ImageCreateInfo, ImageLayout,
    ImageSubresourceRange, MemoryAccess, Pass, PipelineStage, TextureAccess, TextureDesc,
};

fn graph(frame_in_flight: usize) -> FrameGraph {
    FrameGraph::new(&FrameGraphCreateDesc { frame_in_flight })
}

fn desc(width: u32) -> TextureDesc {
    TextureDesc {
        usage: 0x10,
        format: 37,
        extent: Extent3D {
            width,
            height: 16,
            depth: 1,
        },
    }
}

fn create(
    scope: &mut FrameScope<'_, u32>,
    desc: TextureDesc,
    raw: u64,
) -> (Handle<FrameGraphTexture>, bool) {
    match scope.create(desc) {
        Creation::Reused(handle) => (handle, true),
        Creation::Allocate(info) => {
            assert_eq!(info, ImageCreateInfo::new(desc));
            (
                scope.adopt(desc, Image { raw }, Allocation { id: raw + 1000 }),
                false,
            )
        }
    }
}

/// The commands in short: callbacks as they are, barriers by the images and
/// layouts that they change.
#[derive(Debug, PartialEq)]
enum Recorded {
    Barriers(Vec<(u64, ImageLayout, ImageLayout)>),
    Callback(u32),
}

fn record(commands: Vec<Command<u32>>) -> Vec<Recorded> {
    commands
        .into_iter()
        .map(|command| match command {
            Command::PipelineBarrier(barriers) => Recorded::Barriers(
                barriers
                    .iter()
                    .map(|b| (b.image.raw, b.old_layout, b.new_layout))
                    .collect(),
            ),
            Command::Callback(callback) => Recorded::Callback(callback),
        })
        .collect()
}

fn run(scope: &mut FrameScope<'_, u32>) -> Vec<Recorded> {
    assert!(scope.can_compile());
    scope.compile();
    assert!(scope.in_range());
    record(scope.execute())
}

#[test]
fn an_empty_frame_records_nothing() {
    let mut graph = graph(2);
    let mut scope = FrameScope::new(&mut graph);
    assert!(!scope.is_compiled());
    assert_eq!(run(&mut scope), vec![]);
    assert!(scope.is_compiled());
    scope.end_frame();
    assert_eq!(graph.current_frame(), 1);
}

#[test]
fn a_barrier_has_all_its_fields() {
    let mut graph = graph(2);
    let mut scope = FrameScope::new(&mut graph);
    let texture = scope.import(Image { raw: 77 }, TextureAccess::ColorWrite);
    scope.add_pass(
        Pass::new("read")
            .read(texture, TextureAccess::FragmentRead)
            .execute(1u32),
    );
    let commands = scope.execute();
    assert_eq!(commands.len(), 2);
    let expected = ImageBarrier {
        src_stage: PipelineStage::ColorAttachmentOutput,
        src_access: MemoryAccess::ColorAttachmentWrite,
        dst_stage: PipelineStage::FragmentShader,
        dst_access: MemoryAccess::ShaderRead,
        old_layout: ImageLayout::ColorAttachmentOptimal,
        new_layout: ImageLayout::ShaderReadOnlyOptimal,
        src_queue_family_index: u32::MAX,
        dst_queue_family_index: u32::MAX,
        image: Image { raw: 77 },
        subresource_range: ImageSubresourceRange {
            aspect_mask: 1,
            base_mip_level: 0,
            level_count: 1,
            base_array_layer: 0,
            layer_count: 1,
        },
    };
    assert!(matches!(&commands[0], Command::PipelineBarrier(list) if *list == vec![expected]));
    assert!(matches!(&commands[1], Command::Callback(1)));
}

#[test]
fn a_texture_in_the_right_access_needs_no_barrier() {
    let mut graph = graph(2);
    let mut scope = FrameScope::new(&mut graph);
    let texture = scope.import(Image { raw: 5 }, TextureAccess::FragmentRead);
    scope.add_pass(
        Pass::new("twice")
            .read(texture, TextureAccess::FragmentRead)
            .read(texture, TextureAccess::FragmentRead)
            .execute(9),
    );
    assert_eq!(
        run(&mut scope),
        vec![Recorded::Barriers(vec![]), Recorded::Callback(9)]
    );
}

#[test]
fn accesses_of_one_layout_are_still_told_apart() {
    let mut graph = graph(2);
    let mut scope = FrameScope::new(&mut graph);
    let texture = scope.import(Image { raw: 5 }, TextureAccess::VertexRead);
    scope.add_pass(Pass::new("read").read(texture, TextureAccess::FragmentRead));
    assert_eq!(
        run(&mut scope),
        vec![Recorded::Barriers(vec![(
            5,
            ImageLayout::ShaderReadOnlyOptimal,
            ImageLayout::ShaderReadOnlyOptimal
        )])]
    );
}

#[test]
fn barriers_chain_from_pass_to_pass_in_the_order_they_are_compiled() {
    let mut graph = graph(2);
    let mut scope = FrameScope::new(&mut graph);
    let texture = scope.import(Image { raw: 8 }, TextureAccess::Undefined);
    // Compiled in the order 1, 0.
    scope.add_pass(
        Pass::new("read")
            .read(texture, TextureAccess::ComputeRead)
            .execute(0),
    );
    scope.add_pass(
        Pass::new("write")
            .write(texture, TextureAccess::ComputeWrite)
            .execute(1),
    );
    // Index 1 of the compiled passes is the reader, index 0 the writer.
    assert_eq!(
        run(&mut scope),
        vec![
            Recorded::Barriers(vec![(
                8,
                ImageLayout::General,
                ImageLayout::ShaderReadOnlyOptimal
            )]),
            Recorded::Callback(0),
            Recorded::Barriers(vec![(8, ImageLayout::Undefined, ImageLayout::General)]),
            Recorded::Callback(1),
        ]
    );
}

#[test]
fn reads_come_before_writes_in_the_barriers_of_a_pass() {
    let mut graph = graph(2);
    let mut scope = FrameScope::new(&mut graph);
    let texture = scope.import(Image { raw: 8 }, TextureAccess::Undefined);
    scope.add_pass(
        Pass::new("both")
            .write(texture, TextureAccess::ComputeWrite)
            .read(texture, TextureAccess::ComputeRead),
    );
    assert_eq!(
        run(&mut scope),
        vec![Recorded::Barriers(vec![
            (8, ImageLayout::Undefined, ImageLayout::ShaderReadOnlyOptimal),
            (8, ImageLayout::ShaderReadOnlyOptimal, ImageLayout::General),
        ])]
    );
}

#[test]
fn exported_textures_get_a_pass_of_their_own() {
    let mut graph = graph(2);
    let mut scope = FrameScope::new(&mut graph);
    let texture = scope.import(Image { raw: 3 }, TextureAccess::Undefined);
    let image = scope.export(texture, TextureAccess::Present);
    assert_eq!(image, Image { raw: 3 });
    scope.add_pass(
        Pass::new("draw")
            .write(texture, TextureAccess::ColorWrite)
            .execute(4),
    );
    assert_eq!(
        run(&mut scope),
        vec![
            Recorded::Barriers(vec![(
                3,
                ImageLayout::Undefined,
                ImageLayout::ColorAttachmentOptimal
            )]),
            Recorded::Callback(4),
            Recorded::Barriers(vec![(
                3,
                ImageLayout::ColorAttachmentOptimal,
                ImageLayout::PresentSrc
            )]),
        ]
    );
}

#[test]
fn exports_are_brought_to_their_access_after_every_pass() {
    let mut graph = graph(2);
    let mut scope = FrameScope::new(&mut graph);
    let texture = scope.import(Image { raw: 3 }, TextureAccess::Undefined);
    scope.export(texture, TextureAccess::Present);
    scope.add_pass(Pass::new("a").write(texture, TextureAccess::ColorWrite));
    scope.add_pass(Pass::new("b").write(texture, TextureAccess::ComputeWrite));
    let recorded = run(&mut scope);
    assert_eq!(recorded.len(), 3);
    assert_eq!(
        recorded[2],
        Recorded::Barriers(vec![
            (3, ImageLayout::General, ImageLayout::PresentSrc),
            (
                3,
                ImageLayout::ColorAttachmentOptimal,
                ImageLayout::PresentSrc
            ),
        ])
    );
}

#[test]
fn exports_without_a_pass_record_nothing() {
    let mut graph = graph(2);
    let mut scope = FrameScope::new(&mut graph);
    let texture = scope.import(Image { raw: 3 }, TextureAccess::TransferDst);
    scope.export(texture, TextureAccess::Present);
    assert_eq!(run(&mut scope), vec![]);
}

#[test]
fn the_indices_of_passes_are_taken_as_those_of_compiled_passes() {
    let mut graph = graph(2);
    let mut scope = FrameScope::new(&mut graph);
    let texture = scope.import(Image { raw: 1 }, TextureAccess::ComputeWrite);
    // The order is 2, 0, 1: compiled as 12, 10, 11, and run as number 2, 0, 1.
    scope.add_pass(
        Pass::new("reader")
            .read(texture, TextureAccess::ComputeWrite)
            .execute(10),
    );
    scope.add_pass(Pass::new("bystander").execute(11));
    scope.add_pass(
        Pass::new("writer")
            .write(texture, TextureAccess::ComputeWrite)
            .execute(12),
    );
    let callbacks: Vec<Recorded> = run(&mut scope)
        .into_iter()
        .filter(|r| matches!(r, Recorded::Callback(_)))
        .collect();
    assert_eq!(
        callbacks,
        vec![
            Recorded::Callback(11),
            Recorded::Callback(12),
            Recorded::Callback(10)
        ]
    );
}

#[test]
fn a_writer_that_is_added_first_runs_first() {
    let mut graph = graph(2);
    let mut scope = FrameScope::new(&mut graph);
    let texture = scope.import(Image { raw: 1 }, TextureAccess::Undefined);
    scope.add_pass(
        Pass::new("writer")
            .write(texture, TextureAccess::ComputeWrite)
            .execute(1),
    );
    scope.add_pass(
        Pass::new("reader")
            .read(texture, TextureAccess::ComputeWrite)
            .execute(2),
    );
    assert_eq!(
        run(&mut scope),
        vec![
            Recorded::Barriers(vec![(1, ImageLayout::Undefined, ImageLayout::General)]),
            Recorded::Callback(1),
            Recorded::Barriers(vec![]),
            Recorded::Callback(2),
        ]
    );
}

#[test]
fn running_again_records_nothing() {
    let mut graph = graph(2);
    let mut scope = FrameScope::new(&mut graph);
    scope.add_pass(Pass::new("once").execute(1));
    assert_eq!(
        run(&mut scope),
        vec![Recorded::Barriers(vec![]), Recorded::Callback(1)]
    );
    assert!(scope.in_range());
    assert_eq!(record(scope.execute()), vec![]);
}

#[test]
fn passes_added_after_compiling_wait() {
    let mut graph = graph(2);
    let mut scope = FrameScope::new(&mut graph);
    scope.add_pass(Pass::new("first").execute(1));
    scope.compile();
    scope.add_pass(Pass::new("second").execute(2));
    assert_eq!(
        record(scope.execute()),
        vec![Recorded::Barriers(vec![]), Recorded::Callback(1)]
    );
    assert_eq!(
        run(&mut scope),
        vec![Recorded::Barriers(vec![]), Recorded::Callback(2)]
    );
}

#[test]
fn a_frame_with_a_cycle_can_be_out_of_range() {
    let mut graph = graph(2);
    let mut scope: FrameScope<'_, u32> = FrameScope::new(&mut graph);
    let a = scope.import(Image { raw: 1 }, TextureAccess::ComputeWrite);
    let b = scope.import(Image { raw: 2 }, TextureAccess::ComputeWrite);
    scope.add_pass(
        Pass::new("a")
            .read(a, TextureAccess::ComputeWrite)
            .write(b, TextureAccess::ComputeWrite),
    );
    scope.add_pass(
        Pass::new("b")
            .read(b, TextureAccess::ComputeWrite)
            .write(a, TextureAccess::ComputeWrite),
    );
    scope.add_pass(Pass::new("c"));
    assert!(scope.can_compile());
    scope.compile();
    assert!(!scope.in_range());
}

#[test]
fn unsupported_accesses_and_lost_textures_cannot_be_compiled() {
    let mut graph = graph(2);
    let stale = {
        let mut scope: FrameScope<'_, u32> = FrameScope::new(&mut graph);
        let texture = scope.import(Image { raw: 1 }, TextureAccess::Undefined);
        assert!(scope.can_compile());
        scope.add_pass(Pass::new("depth").read(texture, TextureAccess::DepthRead));
        assert!(!scope.can_compile());
        texture
    };
    let mut scope: FrameScope<'_, u32> = FrameScope::new(&mut graph);
    scope.add_pass(Pass::new("stale").write(stale, TextureAccess::ColorWrite));
    assert!(!scope.can_compile());
    let mut scope: FrameScope<'_, u32> = FrameScope::new(&mut graph);
    let texture = scope.import(Image { raw: 1 }, TextureAccess::TransferSrc);
    scope.add_pass(Pass::new("after transfer").write(texture, TextureAccess::ColorWrite));
    assert!(!scope.can_compile());
    let mut scope: FrameScope<'_, u32> = FrameScope::new(&mut graph);
    let texture = scope.import(Image { raw: 1 }, TextureAccess::Undefined);
    scope.export(texture, TextureAccess::TransferSrc);
    assert!(scope.can_compile());
    scope.add_pass(Pass::new("any"));
    assert!(!scope.can_compile());
}

#[test]
fn handles_find_their_images_until_the_frame_ends() {
    let mut graph = graph(2);
    let mut scope: FrameScope<'_, u32> = FrameScope::new(&mut graph);
    let a = scope.import(Image { raw: 10 }, TextureAccess::Undefined);
    let b = scope.import(Image { raw: 20 }, TextureAccess::Undefined);
    assert!(a != b);
    assert!(a == a.clone());
    assert!(a.key() != b.key());
    assert_eq!(scope.resources().get(a), Image { raw: 10 });
    assert_eq!(scope.resources().get(b), Image { raw: 20 });
    scope.compile();
    assert_eq!(scope.resources().get(b), Image { raw: 20 });
    scope.end_frame();
    assert!(!scope.resources().contains(a));
    assert!(!scope.resources().contains(b));
}

#[test]
fn a_transient_texture_starts_undefined() {
    let mut graph = graph(1);
    let mut scope = FrameScope::new(&mut graph);
    let (texture, reused) = create(&mut scope, desc(16), 40);
    assert!(!reused);
    scope.add_pass(Pass::new("draw").write(texture, TextureAccess::ColorWrite));
    assert_eq!(
        run(&mut scope),
        vec![Recorded::Barriers(vec![(
            40,
            ImageLayout::Undefined,
            ImageLayout::ColorAttachmentOptimal
        )])]
    );
    scope.end_frame();
    let mut scope = FrameScope::new(&mut graph);
    let (texture, reused) = create(&mut scope, desc(16), 41);
    assert!(reused);
    assert_eq!(scope.resources().get(texture), Image { raw: 40 });
    scope.add_pass(Pass::new("draw").write(texture, TextureAccess::ColorWrite));
    assert_eq!(
        run(&mut scope),
        vec![Recorded::Barriers(vec![(
            40,
            ImageLayout::Undefined,
            ImageLayout::ColorAttachmentOptimal
        )])]
    );
}

#[test]
fn textures_in_use_are_not_taken_again() {
    let mut graph = graph(1);
    let mut scope = FrameScope::new(&mut graph);
    let (a, _) = create(&mut scope, desc(16), 1);
    let (b, reused) = create(&mut scope, desc(16), 2);
    assert!(!reused);
    assert_eq!(scope.resources().get(a), Image { raw: 1 });
    assert_eq!(scope.resources().get(b), Image { raw: 2 });
    scope.end_frame();
    let mut scope = FrameScope::new(&mut graph);
    let (a, first) = create(&mut scope, desc(16), 3);
    let (b, second) = create(&mut scope, desc(16), 3);
    let (c, third) = create(&mut scope, desc(16), 3);
    assert_eq!((first, second, third), (true, true, false));
    assert_eq!(scope.resources().get(a), Image { raw: 1 });
    assert_eq!(scope.resources().get(b), Image { raw: 2 });
    assert_eq!(scope.resources().get(c), Image { raw: 3 });
}

#[test]
fn another_description_takes_another_texture() {
    let mut graph = graph(1);
    let mut scope = FrameScope::new(&mut graph);
    create(&mut scope, desc(16), 1);
    scope.end_frame();
    let mut scope = FrameScope::new(&mut graph);
    let (_, reused) = create(&mut scope, desc(32), 2);
    assert!(!reused);
}

#[test]
fn frames_in_flight_share_nothing_and_come_round() {
    let mut graph = graph(3);
    for raw in 0..3 {
        let mut scope = FrameScope::new(&mut graph);
        let (_, reused) = create(&mut scope, desc(16), raw);
        assert!(!reused);
        scope.end_frame();
    }
    for raw in 0..3 {
        let mut scope = FrameScope::new(&mut graph);
        let (texture, reused) = create(&mut scope, desc(16), 100);
        assert!(reused);
        assert_eq!(scope.resources().get(texture), Image { raw });
        scope.end_frame();
    }
    assert_eq!(graph.current_frame(), 6);
}

#[test]
fn draining_gives_every_texture_once() {
    let mut graph = graph(2);
    let mut scope = FrameScope::new(&mut graph);
    create(&mut scope, desc(16), 1);
    create(&mut scope, desc(16), 2);
    create(&mut scope, desc(32), 3);
    scope.end_frame();
    let mut scope = FrameScope::new(&mut graph);
    create(&mut scope, desc(16), 4);
    let mut drained: Vec<(usize, u32, u64, Option<Allocation>, bool)> = Vec::new();
    for pool in graph.drain() {
        for (in_use, texture) in pool.textures {
            drained.push((
                pool.frame,
                pool.desc.extent.width,
                texture.image.raw,
                texture.allocation,
                in_use,
            ));
        }
    }
    drained.sort_by_key(|entry| entry.2);
    assert_eq!(
        drained,
        vec![
            (1, 16, 1, Some(Allocation { id: 1001 }), false),
            (1, 16, 2, Some(Allocation { id: 1002 }), false),
            (1, 32, 3, Some(Allocation { id: 1003 }), false),
            (0, 16, 4, Some(Allocation { id: 1004 }), true),
        ]
    );
    assert_eq!(graph.drain().len(), 0);
    let mut scope = FrameScope::new(&mut graph);
    let (_, reused) = create(&mut scope, desc(16), 5);
    assert!(!reused);
}

#[test]
fn a_graph_can_advance_only_with_frames_in_flight() {
    assert!(graph(1).can_advance());
    assert!(!graph(0).can_advance());
    assert_eq!(graph(0).current_frame(), 0);
}

#[test]
fn passes_keep_what_they_are_given() {
    let mut graph = graph(1);
    let mut scope: FrameScope<'_, u32> = FrameScope::new(&mut graph);
    let a = scope.import(Image { raw: 1 }, TextureAccess::Undefined);
    let pass: Pass<u32> = Pass::new("shadow")
        .read(a, TextureAccess::VertexRead)
        .write(a, TextureAccess::ColorWrite)
        .color_attachment(a, AttachmentLoadOp { raw: 1 }, AttachmentStoreOp { raw: 0 })
        .depth_attachment(a)
        .execute(6);
    assert_eq!(pass.name(), "shadow");
    assert_eq!(pass.reads().len(), 1);
    assert!(pass.reads()[0].0 == a && pass.reads()[0].1 == TextureAccess::VertexRead);
    assert_eq!(pass.writes().len(), 1);
    assert!(pass.writes()[0].0 == a && pass.writes()[0].1 == TextureAccess::ColorWrite);
    let empty: Pass<u32> = Pass::new(String::from("empty"));
    assert_eq!(empty.name(), "empty");
    assert!(empty.reads().is_empty() && empty.writes().is_empty());
    scope.add_pass(pass);
    let recorded = run(&mut scope);
    assert_eq!(recorded.len(), 2);
    assert_eq!(recorded[1], Recorded::Callback(6));
    scope.add_pass(empty);
    assert_eq!(run(&mut scope), vec![Recorded::Barriers(vec![])]);
    scope.add_pass(Pass::new("the last callback counts").execute(7).execute(8));
    assert_eq!(
        run(&mut scope),
        vec![Recorded::Barriers(vec![]), Recorded::Callback(8)]
    );
}

#[test]
fn resources_are_made_of_textures_and_buffers() {
    let texture = FrameGraphTexture {
        last_access: TextureAccess::Present,
        allocation: None,
        image: Image { raw: 1 },
    };
    assert_eq!(
        FrameGraphResource::from(texture),
        FrameGraphResource::Texture(texture)
    );
    let buffer = FrameGraphBuffer {
        last_access: frame_graph::types::BufferAccess::ComputeRead,
        allocation: Some(Allocation { id: 2 }),
        image: Buffer { raw: 3 },
    };
    assert_eq!(
        FrameGraphResource::from(buffer),
        FrameGraphResource::Buffer(buffer)
    );
}

#[test]
fn errors_can_be_told_apart() {
    assert!(FrameGraphError::Allocation != FrameGraphError::CreateVkImage);
    assert!(FrameGraphError::BindVkImage == FrameGraphError::BindVkImage);
}

#[test]
fn stale_handles_stay_invalid() {
    let mut graph = graph(2);
    let mut scope: FrameScope<'_, u32> = FrameScope::new(&mut graph);
    let mut stale = vec![
        scope.import(Image { raw: 1 }, TextureAccess::Undefined),
        scope.import(Image { raw: 2 }, TextureAccess::Undefined),
    ];
    for raw in 10..20 {
        scope.execute();
        scope.end_frame();
        let a = scope.import(Image { raw }, TextureAccess::Undefined);
        let b = scope.import(Image { raw: raw + 100 }, TextureAccess::Undefined);
        for handle in &stale {
            assert!(!scope.resources().contains(*handle));
            assert!(*handle != a && *handle != b);
        }
        assert_eq!(scope.resources().get(a), Image { raw });
        assert_eq!(scope.resources().get(b), Image { raw: raw + 100 });
        stale.push(a);
        stale.push(b);
    }
}

#[test]
fn the_keys_of_handles_count_slots_and_versions() {
    let mut graph = graph(2);
    let mut scope: FrameScope<'_, u32> = FrameScope::new(&mut graph);
    assert!(scope.has_room());
    let a = scope.import(Image { raw: 1 }, TextureAccess::Undefined);
    let b = scope.import(Image { raw: 2 }, TextureAccess::Undefined);
    assert_eq!((a.key(), b.key()), (0x1_0000_0001, 0x1_0000_0002));
    scope.end_frame();
    let c = scope.import(Image { raw: 3 }, TextureAccess::Undefined);
    assert_eq!(c.key() >> 32, 3);
    assert!(scope.has_room());
}

#[test]
fn exporting_later_returns_the_same_image() {
    let mut graph = graph(2);
    let mut scope = FrameScope::new(&mut graph);
    let (texture, _) = create(&mut scope, desc(16), 40);
    let other = scope.import(Image { raw: 41 }, TextureAccess::Undefined);
    scope.add_pass(
        Pass::new("draw")
            .write(texture, TextureAccess::ColorWrite)
            .write(other, TextureAccess::ColorWrite),
    );
    run(&mut scope);
    assert_eq!(
        scope.export(texture, TextureAccess::Present),
        Image { raw: 40 }
    );
    assert_eq!(scope.resources().get(texture), Image { raw: 40 });
}

#[test]
fn an_image_can_be_imported_twice() {
    let mut graph = graph(2);
    let mut scope = FrameScope::new(&mut graph);
    let a = scope.import(Image { raw: 5 }, TextureAccess::Present);
    let b = scope.import(Image { raw: 5 }, TextureAccess::ComputeRead);
    assert!(a != b);
    scope.add_pass(Pass::new("first").write(a, TextureAccess::ColorWrite));
    run(&mut scope);
    scope.add_pass(Pass::new("second").write(b, TextureAccess::ColorWrite));
    assert_eq!(
        run(&mut scope),
        vec![Recorded::Barriers(vec![(
            5,
            ImageLayout::ShaderReadOnlyOptimal,
            ImageLayout::ColorAttachmentOptimal
        )])]
    );
}

#[test]
fn executing_compiles_if_need_be() {
    let mut graph = graph(2);
    let passes = || {
        vec![
            Pass::new("a").execute(1u32),
            Pass::new("b").execute(2),
            Pass::new("c").execute(3),
        ]
    };
    let at_once = {
        let mut scope = FrameScope::new(&mut graph);
        for pass in passes() {
            scope.add_pass(pass);
        }
        record(scope.execute())
    };
    let mut scope = FrameScope::new(&mut graph);
    for pass in passes() {
        scope.add_pass(pass);
    }
    assert_eq!(run(&mut scope), at_once);
    assert_eq!(at_once.len(), 6);
}

#[test]
fn passes_added_to_a_frame_that_ran_wait_for_compile() {
    let mut graph = graph(2);
    let mut scope = FrameScope::new(&mut graph);
    scope.add_pass(Pass::new("first").execute(1));
    assert_eq!(record(scope.execute()).len(), 2);
    scope.end_frame();
    scope.add_pass(Pass::new("second").execute(2));
    assert!(scope.in_range());
    assert_eq!(record(scope.execute()), vec![]);
    assert_eq!(
        run(&mut scope),
        vec![Recorded::Barriers(vec![]), Recorded::Callback(2)]
    );
}

/// The images of `count` textures that a frame creates; new ones are numbered on
/// from `next`.
fn images_of_a_frame(graph: &mut FrameGraph, count: u64, next: &mut u64) -> Vec<u64> {
    let mut scope = FrameScope::new(graph);
    let mut images = Vec::new();
    for _ in 0..count {
        let (texture, reused) = create(&mut scope, desc(16), *next);
        if !reused {
            *next += 1;
        }
        images.push(scope.resources().get(texture).raw);
    }
    scope.end_frame();
    images
}

#[test]
fn an_image_comes_back_every_so_many_frames() {
    let mut graph = graph(3);
    let mut next = 0;
    let mut images = Vec::new();
    for _ in 0..12 {
        images.push(images_of_a_frame(&mut graph, 1, &mut next)[0]);
    }
    for f in 0..12 {
        for g in 0..12 {
            assert_eq!(images[f] == images[g], f % 3 == g % 3);
        }
    }
    assert_eq!(next, 3);
}

#[test]
fn pools_grow_to_the_busiest_frame() {
    let mut graph = graph(2);
    let mut next = 0;
    let counts = [1, 4, 3, 2, 0, 5, 1];
    let mut frames: Vec<Vec<u64>> = Vec::new();
    for count in counts {
        frames.push(images_of_a_frame(&mut graph, count, &mut next));
    }
    // Frames 0, 2, 4, 6 have one pool, which grew to 3; frames 1, 3, 5 have the
    // other, which grew to 5.
    let mut sizes: Vec<(usize, usize)> = graph
        .drain()
        .into_iter()
        .map(|pool| (pool.frame, pool.textures.len()))
        .collect();
    sizes.sort();
    assert_eq!(sizes, vec![(0, 5), (1, 3)]);
    assert_eq!(next, 8);
    assert_eq!(frames[2][0], frames[0][0]);
    assert_eq!(frames[5][..2], frames[3][..]);
    for images in &frames {
        for (p, image) in images.iter().enumerate() {
            assert!(!images[p + 1..].contains(image));
        }
    }
}

#[test]
fn textures_in_use_come_first() {
    let mut graph = graph(1);
    let mut next = 0;
    images_of_a_frame(&mut graph, 3, &mut next);
    {
        let mut scope = FrameScope::new(&mut graph);
        create(&mut scope, desc(16), 50);
        create(&mut scope, desc(16), 50);
    }
    let pools = graph.drain();
    assert_eq!(pools.len(), 1);
    let in_use: Vec<(bool, u64)> = pools[0]
        .textures
        .iter()
        .map(|(in_use, texture)| (*in_use, texture.image.raw))
        .collect();
    assert_eq!(in_use, vec![(true, 0), (true, 1), (false, 2)]);
    assert!(pools[0]
        .textures
        .iter()
        .all(|(_, t)| t.last_access == TextureAccess::Undefined && t.allocation.is_some()));
}

#[test]
fn a_dropped_scope_keeps_its_textures_in_use() {
    let mut graph = graph(1);
    {
        let mut scope = FrameScope::new(&mut graph);
        create(&mut scope, desc(16), 1);
    }
    let mut scope = FrameScope::new(&mut graph);
    let (texture, reused) = create(&mut scope, desc(16), 2);
    assert!(!reused);
    assert_eq!(scope.resources().get(texture), Image { raw: 2 });
    scope.end_frame();
    let mut scope = FrameScope::new(&mut graph);
    let (texture, reused) = create(&mut scope, desc(16), 3);
    assert!(reused);
    assert_eq!(scope.resources().get(texture), Image { raw: 1 });
}

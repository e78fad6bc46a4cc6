use frame_graph::{
    FrameGraph, FrameGraphCreateDesc, FrameScope, Handle, Image, Pass, TextureAccess,
    FrameGraphTexture,
};

fn sorted(dependencies: &[Vec<usize>]) -> Vec<usize> {
    FrameScope::<u32>::topological_sort(dependencies)
}

#[test]
fn test_topological_sort() {
    let dependencies = vec![
        vec![],
    ];

    let sorted = FrameScope::<()>::topological_sort(&dependencies);
    assert_eq!(sorted, vec![0]);
}

#[test]
fn nothing_to_sort() {
    assert_eq!(sorted(&[]), Vec::<usize>::new());
}

#[test]
fn independent_nodes_come_last_first() {
    assert_eq!(sorted(&[vec![], vec![], vec![]]), vec![2, 1, 0]);
}

#[test]
fn a_chain_is_sorted_from_its_start() {
    assert_eq!(sorted(&[vec![1], vec![2], vec![]]), vec![2, 1, 0]);
    assert_eq!(sorted(&[vec![], vec![0], vec![1]]), vec![0, 1, 2]);
}

#[test]
fn a_diamond_is_sorted_and_what_is_released_last_comes_first() {
    assert_eq!(
        sorted(&[vec![], vec![0], vec![0], vec![1, 2]]),
        vec![0, 2, 1, 3]
    );
}

#[test]
fn cycles_and_what_depends_on_them_are_left_out() {
    assert_eq!(sorted(&[vec![1], vec![0]]), Vec::<usize>::new());
    assert_eq!(sorted(&[vec![0]]), Vec::<usize>::new());
    assert_eq!(sorted(&[vec![1], vec![0], vec![], vec![1, 2]]), vec![2]);
}

#[test]
fn a_dependency_named_twice_or_out_of_range_is_never_met() {
    assert_eq!(sorted(&[vec![], vec![0, 0]]), vec![0]);
    assert_eq!(sorted(&[vec![7], vec![]]), vec![1]);
}

fn handles(count: u64) -> Vec<Handle<FrameGraphTexture>> {
    let mut graph = FrameGraph::new(&FrameGraphCreateDesc { frame_in_flight: 1 });
    let mut scope: FrameScope<u32> = FrameScope::new(&mut graph);
    (0..count)
        .map(|raw| scope.import(Image { raw }, TextureAccess::Undefined))
        .collect()
}

#[test]
fn readers_come_after_writers_of_the_same_use() {
    let textures = handles(2);
    let passes: Vec<Pass<u32>> = vec![
        Pass::new("reader").read(textures[0], TextureAccess::ComputeWrite),
        Pass::new("bystander"),
        Pass::new("writer").write(textures[0], TextureAccess::ComputeWrite),
    ];
    assert_eq!(FrameScope::sorting_passes(&passes), vec![2, 0, 1]);
}

#[test]
fn a_read_with_another_access_waits_for_nobody() {
    let textures = handles(1);
    let passes: Vec<Pass<u32>> = vec![
        Pass::new("reader").read(textures[0], TextureAccess::FragmentRead),
        Pass::new("writer").write(textures[0], TextureAccess::ColorWrite),
    ];
    assert_eq!(FrameScope::sorting_passes(&passes), vec![1, 0]);
    let passes: Vec<Pass<u32>> = vec![
        Pass::new("writer").write(textures[0], TextureAccess::ColorWrite),
        Pass::new("reader").read(textures[0], TextureAccess::FragmentRead),
    ];
    assert_eq!(FrameScope::sorting_passes(&passes), vec![1, 0]);
}

#[test]
fn a_pass_does_not_wait_for_itself() {
    let textures = handles(1);
    let passes: Vec<Pass<u32>> = vec![Pass::new("both")
        .read(textures[0], TextureAccess::ComputeWrite)
        .write(textures[0], TextureAccess::ComputeWrite)];
    assert_eq!(FrameScope::sorting_passes(&passes), vec![0]);
}

#[test]
fn passes_that_wait_for_each_other_are_left_out() {
    let textures = handles(2);
    let passes: Vec<Pass<u32>> = vec![
        Pass::new("a")
            .read(textures[0], TextureAccess::ComputeWrite)
            .write(textures[1], TextureAccess::ComputeWrite),
        Pass::new("b")
            .read(textures[1], TextureAccess::ComputeWrite)
            .write(textures[0], TextureAccess::ComputeWrite),
        Pass::new("c"),
    ];
    assert_eq!(FrameScope::sorting_passes(&passes), vec![2]);
}

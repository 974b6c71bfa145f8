use glam::{Affine3A, Quat, Vec3};
use mycraft::affine::TransformComponent;
use mycraft::hierarchy::{
    mark_dirty_trees_system, propagate_parent_transforms_system, Entity, HierarchyError,
    TransformHierarchy,
};

fn local(position: [f32; 3], rotation_z: f32, scale: f32) -> TransformComponent {
    TransformComponent {
        position: Vec3::from_array(position),
        rotation: Quat::from_rotation_z(rotation_z),
        scale: Vec3::splat(scale),
    }
}

fn srt(t: &TransformComponent) -> Affine3A {
    Affine3A::from_scale_rotation_translation(t.scale, t.rotation, t.position)
}

fn world(h: &TransformHierarchy, e: Entity) -> Affine3A {
    h.global_transform(e).unwrap().global_transform()
}

fn bits(a: Affine3A) -> Vec<u32> {
    a.to_cols_array().iter().map(|c| c.to_bits()).collect()
}

fn run_frame(h: &mut TransformHierarchy) {
    mark_dirty_trees_system(h);
    propagate_parent_transforms_system(h);
}

/// A root with a child with a child, and a second root.
fn sample() -> (TransformHierarchy, Entity, Entity, Entity, Entity) {
    let mut h = TransformHierarchy::new();
    let a = h.spawn(local([1.0, 2.0, 3.0], 0.5, 1.0));
    let b = h.spawn_child(local([0.0, 1.0, 0.0], 0.25, 2.0), a).unwrap();
    let c = h.spawn_child(local([3.0, 0.0, -1.0], -0.75, 0.5), b).unwrap();
    let d = h.spawn(local([-4.0, 0.0, 0.0], 1.0, 3.0));
    run_frame(&mut h);
    (h, a, b, c, d)
}

#[test]
fn world_is_product_of_ancestor_chain() {
    let (h, a, b, c, d) = sample();
    let la = h.local_transform(a).unwrap();
    let lb = h.local_transform(b).unwrap();
    let lc = h.local_transform(c).unwrap();
    let ld = h.local_transform(d).unwrap();
    assert_eq!(bits(world(&h, a)), bits(srt(&la)));
    assert_eq!(bits(world(&h, b)), bits(srt(&la) * srt(&lb)));
    assert_eq!(bits(world(&h, c)), bits((srt(&la) * srt(&lb)) * srt(&lc)));
    assert_eq!(bits(world(&h, d)), bits(srt(&ld)));
}

#[test]
fn propagation_twice_is_idempotent() {
    let (mut h, a, b, c, d) = sample();
    let before: Vec<Vec<u32>> = [a, b, c, d].iter().map(|e| bits(world(&h, *e))).collect();
    propagate_parent_transforms_system(&mut h);
    let after: Vec<Vec<u32>> = [a, b, c, d].iter().map(|e| bits(world(&h, *e))).collect();
    assert_eq!(before, after);
    for e in [a, b, c, d] {
        assert_eq!(h.is_global_transform_changed(e), Some(false));
    }
    run_frame(&mut h);
    for e in [a, b, c, d] {
        assert_eq!(h.is_global_transform_changed(e), Some(false));
    }
}

#[test]
fn local_change_rewrites_only_its_subtree() {
    let (mut h, a, b, c, d) = sample();
    let world_a = bits(world(&h, a));
    let world_d = bits(world(&h, d));
    h.set_local_transform(b, local([5.0, 5.0, 5.0], 0.1, 1.5)).unwrap();
    run_frame(&mut h);
    assert_eq!(h.is_global_transform_changed(a), Some(false));
    assert_eq!(h.is_global_transform_changed(d), Some(false));
    assert_eq!(h.is_global_transform_changed(b), Some(true));
    assert_eq!(h.is_global_transform_changed(c), Some(true));
    assert_eq!(bits(world(&h, a)), world_a);
    assert_eq!(bits(world(&h, d)), world_d);
    let lb = h.local_transform(b).unwrap();
    let lc = h.local_transform(c).unwrap();
    assert_eq!(bits(world(&h, b)), bits(world(&h, a) * srt(&lb)));
    assert_eq!(bits(world(&h, c)), bits(world(&h, b) * srt(&lc)));
}

#[test]
fn unchanged_value_is_not_rewritten() {
    let (mut h, a, b, c, _d) = sample();
    let same = h.local_transform(b).unwrap();
    h.set_local_transform(b, same).unwrap();
    run_frame(&mut h);
    assert_eq!(h.is_global_transform_changed(a), Some(false));
    assert_eq!(h.is_global_transform_changed(b), Some(false));
    assert_eq!(h.is_global_transform_changed(c), Some(false));
}

#[test]
fn reparenting_follows_new_parent() {
    let (mut h, _a, b, c, d) = sample();
    h.set_parent(c, d).unwrap();
    assert_eq!(h.parent(c), Ok(Some(d)));
    run_frame(&mut h);
    let lc = h.local_transform(c).unwrap();
    assert_eq!(bits(world(&h, c)), bits(world(&h, d) * srt(&lc)));
    assert_eq!(h.is_global_transform_changed(b), Some(false));
}

#[test]
fn orphaned_entity_becomes_root() {
    let (mut h, _a, b, c, _d) = sample();
    h.remove_parent(b).unwrap();
    assert_eq!(h.parent(b), Ok(None));
    run_frame(&mut h);
    let lb = h.local_transform(b).unwrap();
    let lc = h.local_transform(c).unwrap();
    assert_eq!(bits(world(&h, b)), bits(srt(&lb)));
    assert_eq!(bits(world(&h, c)), bits(srt(&lb) * srt(&lc)));
}

#[test]
fn reparenting_under_own_descendant_is_refused() {
    let (mut h, a, b, c, _d) = sample();
    assert_eq!(h.set_parent(a, c), Err(HierarchyError::WouldCreateCycle));
    assert_eq!(h.set_parent(b, b), Err(HierarchyError::WouldCreateCycle));
    assert_eq!(h.parent(a), Ok(None));
    assert_eq!(h.parent(b), Ok(Some(a)));
}

#[test]
fn unknown_entity_is_reported() {
    let (mut h, a, _b, _c, _d) = sample();
    let ghost_entity = Entity::from_index(99);
    assert_eq!(h.set_parent(ghost_entity, a), Err(HierarchyError::UnknownEntity));
    assert_eq!(h.set_parent(a, ghost_entity), Err(HierarchyError::UnknownEntity));
    assert_eq!(h.remove_parent(ghost_entity), Err(HierarchyError::UnknownEntity));
    assert_eq!(
        h.set_local_transform(ghost_entity, local([0.0; 3], 0.0, 1.0)),
        Err(HierarchyError::UnknownEntity)
    );
    assert!(h.spawn_child(local([0.0; 3], 0.0, 1.0), ghost_entity).is_err());
    assert_eq!(h.parent(ghost_entity), Err(HierarchyError::UnknownEntity));
    assert!(h.global_transform(ghost_entity).is_none());
    assert!(h.local_transform(ghost_entity).is_none());
    assert_eq!(h.len(), 4);
}

#[test]
fn marking_walks_up_to_the_root() {
    let (mut h, a, b, c, d) = sample();
    h.set_local_transform(c, local([0.0, 0.0, 9.0], 0.0, 1.0)).unwrap();
    mark_dirty_trees_system(&mut h);
    assert_eq!(h.is_tree_changed(a), Some(true));
    assert_eq!(h.is_tree_changed(b), Some(true));
    assert_eq!(h.is_tree_changed(c), Some(true));
    assert_eq!(h.is_tree_changed(d), Some(false));
    propagate_parent_transforms_system(&mut h);
    for e in [a, b, c, d] {
        assert_eq!(h.is_tree_changed(e), Some(false));
    }
}

#[test]
fn propagation_without_marking_still_catches_up() {
    let mut h = TransformHierarchy::new();
    let a = h.spawn(local([1.0, 0.0, 0.0], 0.0, 1.0));
    let b = h.spawn_child(local([0.0, 2.0, 0.0], 0.3, 1.0), a).unwrap();
    propagate_parent_transforms_system(&mut h);
    let la = h.local_transform(a).unwrap();
    let lb = h.local_transform(b).unwrap();
    assert_eq!(bits(world(&h, b)), bits(srt(&la) * srt(&lb)));
}

#[test]
fn entity_index_round_trip() {
    let e = Entity::from_index(7);
    assert_eq!(e.index(), 7);
}

#[test]
fn local_transform_converts_to_affine() {
    let t = local([1.0, 2.0, 3.0], 0.4, 2.0);
    assert_eq!(bits(t.to_affine()), bits(srt(&t)));
    assert_ne!(bits(t.to_affine()), bits(Affine3A::IDENTITY));
}

#[test]
fn children_follow_parent_links() {
    let (mut h, a, b, c, d) = sample();
    assert_eq!(h.children(a), Ok(vec![b]));
    assert_eq!(h.children(b), Ok(vec![c]));
    assert_eq!(h.children(d), Ok(vec![]));
    h.set_parent(c, d).unwrap();
    assert_eq!(h.children(b), Ok(vec![]));
    assert_eq!(h.children(d), Ok(vec![c]));
    assert_eq!(h.children(Entity::from_index(42)), Err(HierarchyError::UnknownEntity));
}

#[test]
fn nan_candidate_counts_as_changed() {
    let mut h = TransformHierarchy::new();
    let a = h.spawn(local([1.0, 0.0, 0.0], 0.3, 1.0));
    let b = h.spawn_child(local([0.0, 2.0, 0.0], 0.0, 1.0), a).unwrap();
    run_frame(&mut h);
    let broken = TransformComponent {
        position: Vec3::ZERO,
        rotation: Quat::IDENTITY,
        scale: Vec3::new(f32::INFINITY, 1.0, 1.0),
    };
    h.set_local_transform(a, broken).unwrap();
    run_frame(&mut h);
    assert!(world(&h, a).to_cols_array().iter().any(|c| c.is_nan()));
    assert!(world(&h, b).to_cols_array().iter().any(|c| c.is_nan()));
    assert_eq!(h.is_global_transform_changed(a), Some(true));
    assert_eq!(h.is_global_transform_changed(b), Some(true));
    h.set_local_transform(a, local([1.0, 0.0, 0.0], 0.3, 1.0)).unwrap();
    run_frame(&mut h);
    let la = h.local_transform(a).unwrap();
    let lb = h.local_transform(b).unwrap();
    assert_eq!(bits(world(&h, b)), bits(srt(&la) * srt(&lb)));
}

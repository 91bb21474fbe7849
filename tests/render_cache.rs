use sixtyfps_corelib::base::{ItemBase, ItemExtensions, HAS_OPACITY, HAS_VISIBILITY};
use sixtyfps_corelib::component::ComponentType;
use sixtyfps_corelib::item::{
    AspectRatio, GeometryFn, InputFn, ItemVTable, LayoutFn, LayoutInfo, MouseEvent, MouseEventKind,
    PathElement, Rect, RenderFn, RenderingInfo,
};
use sixtyfps_corelib::render::Backend;
use sixtyfps_corelib::tree::{visit_order, ItemTreeNode};

fn container_vtable() -> ItemVTable {
    ItemVTable {
        geometry: GeometryFn::Empty,
        render_node_offset: 0,
        rendering_info: None,
        layouting_info: None,
        input_event: None,
    }
}

fn rectangle_vtable() -> ItemVTable {
    ItemVTable {
        geometry: GeometryFn::Fields,
        render_node_offset: 4,
        rendering_info: Some(RenderFn::RectanglePath),
        layouting_info: None,
        input_event: None,
    }
}

fn node(offset: usize, vtable: usize, children_count: u32, children_index: u32) -> ItemTreeNode {
    ItemTreeNode { offset, vtable, children_count, children_index }
}

/// A container at word 0 (slot at words 0..2) and a rectangle at word 2
/// (x, y, width, height at words 2..6, slot at words 6..8).
fn container_with_rectangle() -> ComponentType {
    ComponentType {
        item_tree: vec![node(0, 0, 1, 1), node(2, 1, 0, 2)],
        vtables: vec![container_vtable(), rectangle_vtable()],
        initial_block: vec![0, 0, 0, 0, 10, 10, 0, 0],
    }
}

fn rect_path(x: i128, y: i128, w: i128, h: i128) -> RenderingInfo {
    RenderingInfo::Path(vec![
        PathElement::MoveTo { x, y },
        PathElement::LineTo { x: x + w, y },
        PathElement::LineTo { x: x + w, y: y + h },
        PathElement::LineTo { x, y: y + h },
        PathElement::Close,
    ])
}

#[test]
fn first_render_renders_rectangle_once_then_nothing() {
    let c = container_with_rectangle();
    let mut inst = c.create();
    let mut backend = Backend { cache: Vec::new() };
    assert_eq!(c.item_geometry(&inst, 1), Rect { x: 0, y: 0, width: 10, height: 10 });
    let first = backend.render(&c, &mut inst);
    assert_eq!(first, vec![1]);
    assert_eq!(backend.cache, vec![Some(rect_path(0, 0, 10, 10))]);
    // the rectangle's slot now holds handle 1 and a clear dirty flag
    assert_eq!(inst.block[6], 1);
    assert_eq!(inst.block[7], 0);
    let second = backend.render(&c, &mut inst);
    assert!(second.is_empty());
    assert_eq!(backend.cache.len(), 1);
}

#[test]
fn width_change_rerenders_only_that_item() {
    let c = container_with_rectangle();
    let mut inst = c.create();
    let mut backend = Backend { cache: Vec::new() };
    backend.render(&c, &mut inst);
    c.set_property(&mut inst, 1, 2, 25);
    assert_eq!(inst.block[7], 1);
    let again = backend.render(&c, &mut inst);
    assert_eq!(again, vec![1]);
    assert_eq!(c.item_geometry(&inst, 1).width, 25);
    // the old entry is released, the fresh one holds the new outline
    assert_eq!(backend.cache, vec![None, Some(rect_path(0, 0, 25, 10))]);
    assert_eq!(inst.block[6], 2);
    assert!(backend.render(&c, &mut inst).is_empty());
}

#[test]
fn round_trip_create_render_destroy() {
    let c = container_with_rectangle();
    let mut backend = Backend { cache: Vec::new() };
    let mut a = c.create();
    let mut b = c.create();
    assert_eq!(a.block, b.block);
    let ra = backend.render(&c, &mut a);
    let rb = backend.render(&c, &mut b);
    assert_eq!(ra, rb);
    let block_after = a.block.clone();
    let cache_after = backend.cache.clone();
    for _ in 0..3 {
        assert!(backend.render(&c, &mut a).is_empty());
        assert_eq!(a.block, block_after);
        assert_eq!(backend.cache, cache_after);
    }
    c.destroy(a, &mut backend);
    assert_eq!(backend.cache, vec![None, Some(rect_path(0, 0, 10, 10))]);
    c.destroy(b, &mut backend);
    assert_eq!(backend.cache, vec![None, None]);
}

#[test]
fn create_empties_every_slot() {
    let c = ComponentType {
        item_tree: vec![node(0, 0, 1, 1), node(2, 1, 0, 2)],
        vtables: vec![container_vtable(), rectangle_vtable()],
        initial_block: vec![7, 0, 1, 2, 3, 4, 9, 0],
    };
    let inst = c.create();
    assert_eq!(inst.block, vec![0, 1, 1, 2, 3, 4, 0, 1]);
}

#[test]
fn pre_order_visits_each_node_once() {
    // 0 has children 1 and 2; 1 has children 3 and 4
    let nodes = vec![node(0, 0, 2, 1), node(0, 0, 2, 3), node(0, 0, 0, 0), node(0, 0, 0, 0), node(0, 0, 0, 0)];
    assert_eq!(visit_order(&nodes), vec![0, 1, 3, 4, 2]);
}

#[test]
fn pre_order_single_root() {
    assert_eq!(visit_order(&vec![node(0, 0, 0, 0)]), vec![0]);
}

#[test]
fn pre_order_deep_chain() {
    let nodes = vec![node(0, 0, 1, 1), node(0, 0, 1, 2), node(0, 0, 1, 3), node(0, 0, 0, 0)];
    assert_eq!(visit_order(&nodes), vec![0, 1, 2, 3]);
}

#[test]
fn container_yields_no_content_and_is_never_rendered() {
    let c = container_with_rectangle();
    let mut inst = c.create();
    let mut backend = Backend { cache: Vec::new() };
    assert_eq!(c.item_rendering(&inst, 0), RenderingInfo::NoContents);
    assert_eq!(c.item_layout(&inst, 0), None);
    assert_eq!(c.item_geometry(&inst, 0), Rect { x: 0, y: 0, width: 0, height: 0 });
    let before = inst.block.clone();
    c.input_event(&mut inst, 0, MouseEvent { x: 1, y: 1, kind: MouseEventKind::Pressed });
    assert_eq!(inst.block, before);
    let rendered = backend.render(&c, &mut inst);
    assert!(!rendered.contains(&0));
    // the container's slot is left as created
    assert_eq!(inst.block[0], 0);
    assert_eq!(inst.block[1], 1);
}

/// An image button: x, y, width, height at words 0..4, image handle at
/// word 4, pressed flag at word 5, minimum size at word 6, slot at 7..9.
fn image_button() -> ComponentType {
    ComponentType {
        item_tree: vec![node(0, 0, 0, 0)],
        vtables: vec![ItemVTable {
            geometry: GeometryFn::Fields,
            render_node_offset: 7,
            rendering_info: Some(RenderFn::ImageAt { handle_field: 4, aspect: AspectRatio::Fit }),
            layouting_info: Some(LayoutFn { min_size_field: 6, width_field: 2 }),
            input_event: Some(InputFn { pressed_field: 5 }),
        }],
        initial_block: vec![-3, 4, 30, 40, 77, 0, 12, 5, 0],
    }
}

#[test]
fn image_item_renders_its_handle() {
    let c = image_button();
    let mut inst = c.create();
    let mut backend = Backend { cache: Vec::new() };
    assert_eq!(c.item_rendering(&inst, 0), RenderingInfo::Image(77, AspectRatio::Fit));
    assert_eq!(backend.render(&c, &mut inst), vec![0]);
    assert_eq!(backend.cache, vec![Some(RenderingInfo::Image(77, AspectRatio::Fit))]);
}

#[test]
fn layout_info_reads_min_size() {
    let c = image_button();
    let inst = c.create();
    assert_eq!(c.item_layout(&inst, 0), Some(LayoutInfo { min_size: 12, width_offset: 2 }));
}

#[test]
fn press_and_release_mark_item_dirty() {
    let c = image_button();
    let mut inst = c.create();
    let mut backend = Backend { cache: Vec::new() };
    backend.render(&c, &mut inst);
    assert_eq!(inst.block[8], 0);
    c.input_event(&mut inst, 0, MouseEvent { x: 0, y: 0, kind: MouseEventKind::Moved });
    assert_eq!(inst.block[8], 0);
    c.input_event(&mut inst, 0, MouseEvent { x: 0, y: 0, kind: MouseEventKind::Pressed });
    assert_eq!(inst.block[5], 1);
    assert_eq!(inst.block[8], 1);
    assert_eq!(backend.render(&c, &mut inst), vec![0]);
    c.input_event(&mut inst, 0, MouseEvent { x: 0, y: 0, kind: MouseEventKind::Released });
    assert_eq!(inst.block[5], 0);
    assert_eq!(backend.render(&c, &mut inst), vec![0]);
    assert_eq!(backend.cache.len(), 3);
}

#[test]
fn negative_coordinates_in_outline() {
    let c = ComponentType {
        item_tree: vec![node(0, 0, 0, 0)],
        vtables: vec![rectangle_vtable()],
        initial_block: vec![-5, i64::MAX, i64::MAX, 2, 0, 0],
    };
    let inst = c.create();
    let big = i64::MAX as i128;
    assert_eq!(c.item_rendering(&inst, 0), rect_path(-5, big, big, 2));
}

#[test]
fn visibility_follows_extension() {
    let hidden = ItemBase {
        extensions: ItemExtensions { bits: HAS_VISIBILITY },
        x: 0,
        y: 0,
        visible: false,
        opacity: 0,
    };
    assert!(!hidden.is_visible());
    let plain = ItemBase { extensions: ItemExtensions { bits: HAS_OPACITY }, ..hidden };
    assert!(plain.is_visible());
    let shown = ItemBase { visible: true, ..hidden };
    assert!(shown.is_visible());
    assert!(shown.extensions.contains(HAS_VISIBILITY));
    assert!(!shown.extensions.contains(HAS_OPACITY));
}

#[test]
fn origins_accumulate_by_translation() {
    // a rectangle at (5, 7) holding one at (1, 2), which holds one at (-10, 0);
    // a second child of the root sits at (3, 3)
    let c = ComponentType {
        item_tree: vec![node(0, 0, 2, 1), node(6, 0, 1, 3), node(12, 0, 0, 0), node(18, 0, 0, 0)],
        vtables: vec![rectangle_vtable()],
        initial_block: vec![
            5, 7, 100, 100, 0, 0, //
            1, 2, 10, 10, 0, 0, //
            3, 3, 1, 1, 0, 0, //
            -10, 0, 4, 4, 0, 0,
        ],
    };
    let inst = c.create();
    assert_eq!(c.absolute_origins(&inst), vec![(5, 7), (6, 9), (8, 10), (-4, 9)]);
}

use pluto_layers::mesh::{AttributeFormat, MeshLayout, Vertex, VertexAttribute, VertexLayout};
use pluto_layers::surface::SurfaceError;
use pluto_layers::system::{LayerSystemManager, LayerSystemProvider};
use pluto_layers::traversal::{LayerTraversal, TraversalStep};
use pluto_layers::window::{DisplayEvent, PhysicalSize, WindowEvent};

#[test]
fn empty_stack_finds_nothing() {
    let mut course: LayerTraversal<u32> = LayerTraversal::new(Vec::new());
    assert_eq!(course.systems().depth(), 0);
    assert_eq!(course.systems().query(1), None);
    assert_eq!(course.systems_mut().query_mut(1), None);
}

#[test]
fn provided_system_is_found_by_its_kind() {
    let mut course = LayerTraversal::new(Vec::new());
    let systems = course.systems_mut();
    systems.provide_system(1, "one");
    systems.provide_system(2, "two");
    assert_eq!(systems.depth(), 2);
    assert_eq!(systems.query(1), Some(&"one"));
    assert_eq!(systems.query(2), Some(&"two"));
    assert_eq!(systems.query(3), None);
}

#[test]
fn later_system_hides_the_earlier_one_of_its_kind() {
    let mut course = LayerTraversal::new(vec![7, 8]);
    assert_eq!(course.advance(false), TraversalStep::Enter(7));
    course.systems_mut().provide_system(1, 10);
    course.systems_mut().provide_system(2, 20);
    assert_eq!(course.advance(true), TraversalStep::Enter(8));
    course.systems_mut().provide_system(1, 11);
    assert_eq!(course.systems().query(1), Some(&11));
    assert_eq!(course.systems().query(2), Some(&20));

    *course.systems_mut().query_mut(1).unwrap() = 12;
    assert_eq!(course.systems().query(1), Some(&12));

    // The layer that is left still finds what it has provided.
    assert_eq!(course.advance(true), TraversalStep::Leave(8, 2));
    assert_eq!(course.systems().query(1), Some(&12));

    // Once it is left, the earlier system is found again.
    assert_eq!(course.advance(true), TraversalStep::Leave(7, 0));
    assert_eq!(course.systems().depth(), 2);
    assert_eq!(course.systems().query(1), Some(&10));
    assert_eq!(course.systems().query(2), Some(&20));

    assert_eq!(course.advance(true), TraversalStep::Done);
    assert_eq!(course.systems().depth(), 0);
    assert_eq!(course.systems().query(1), None);
}

#[test]
fn unwinding_takes_off_what_was_provided_since() {
    let mut course = LayerTraversal::new(vec![7, 8]);
    assert_eq!(course.advance(false), TraversalStep::Enter(7));
    course.systems_mut().provide_system(1, 10);
    assert_eq!(course.advance(true), TraversalStep::Enter(8));
    course.systems_mut().provide_system(2, 20);
    course.systems_mut().provide_system(3, 30);
    assert_eq!(course.systems().query(3), Some(&30));
    assert_eq!(course.advance(false), TraversalStep::Leave(8, 1));
    assert_eq!(course.systems().depth(), 3);
    assert_eq!(course.advance(false), TraversalStep::Leave(7, 0));
    assert_eq!(course.systems().depth(), 1);
    assert_eq!(course.systems().query(1), Some(&10));
    assert_eq!(course.systems().query(2), None);
    assert_eq!(course.systems().query(3), None);
    assert_eq!(course.advance(false), TraversalStep::Done);
    assert_eq!(course.systems().depth(), 0);
    assert_eq!(course.systems().query(1), None);
}

#[test]
fn attribute_sizes() {
    assert_eq!(AttributeFormat::Float32.size(), 4);
    assert_eq!(AttributeFormat::Float32x2.size(), 8);
    assert_eq!(AttributeFormat::Float32x3.size(), 12);
    assert_eq!(AttributeFormat::Float32x4.size(), 16);
}

struct Corner {
    _position: [u32; 3],
    _color: [u32; 3],
}

impl Vertex for Corner {
    fn attributes() -> &'static [AttributeFormat] {
        &[AttributeFormat::Float32x3, AttributeFormat::Float32x3]
    }
}

#[test]
fn vertex_layout_is_interleaved_with_the_size_of_a_vertex_as_stride() {
    let layout: VertexLayout<'static> = Corner::layout();
    assert_eq!(layout.stride, 24);
    assert_eq!(layout.layout, MeshLayout::Interleaved);
    assert_eq!(
        layout.attributes,
        &[AttributeFormat::Float32x3, AttributeFormat::Float32x3]
    );
    let total: usize = layout.attributes.iter().map(|format| format.size()).sum();
    assert_eq!(total, layout.stride);
}

#[test]
fn surface_error_wraps_its_cause() {
    let error = SurfaceError::from("lost contact");
    assert!(matches!(error, SurfaceError::Other("lost contact")));
    assert_eq!(error.cause(), Some(&"lost contact"));
    assert_eq!(SurfaceError::<u8>::DeviceLost.cause(), None);
    assert_eq!(SurfaceError::<u8>::OutOfMemory.cause(), None);
    assert_eq!(format!("{:?}", SurfaceError::<u8>::DeviceLost), "DeviceLost");
}

#[test]
fn window_events_carry_sizes() {
    let size = PhysicalSize {
        width: 800u32,
        height: 600u32,
    };
    let event = DisplayEvent::WindowEvent(WindowEvent::Resized(size));
    match event {
        DisplayEvent::WindowEvent(WindowEvent::Resized(resized)) => {
            assert_eq!(resized.width, 800);
            assert_eq!(resized.height, 600);
        }
        _ => panic!("a resize was sent"),
    }
    assert!(matches!(DisplayEvent::Repaint, DisplayEvent::Repaint));
    assert!(matches!(
        WindowEvent::CloseRequested,
        WindowEvent::CloseRequested
    ));
}

#[test]
fn attribute_is_placed_at_the_offset_and_moves_it() {
    let mut offset = 20;
    let attribute = AttributeFormat::Float32x3.place(&mut offset, 2);
    assert_eq!(
        attribute,
        VertexAttribute {
            offset: 20,
            format: AttributeFormat::Float32x3,
            shader_location: 2
        }
    );
    assert_eq!(offset, 32);
}

#[test]
fn attributes_of_a_layout_follow_each_other() {
    let formats = [
        AttributeFormat::Float32x3,
        AttributeFormat::Float32,
        AttributeFormat::Float32x4,
        AttributeFormat::Float32x2,
    ];
    let layout = VertexLayout {
        stride: 40,
        layout: MeshLayout::Interleaved,
        attributes: &formats,
    };
    let placed = layout.placed_attributes();
    let offsets: Vec<u64> = placed.iter().map(|attribute| attribute.offset).collect();
    assert_eq!(offsets, vec![0, 12, 16, 32]);
    let locations: Vec<u32> = placed
        .iter()
        .map(|attribute| attribute.shader_location)
        .collect();
    assert_eq!(locations, vec![0, 1, 2, 3]);
    let kept: Vec<AttributeFormat> = placed.iter().map(|attribute| attribute.format).collect();
    assert_eq!(kept, formats.to_vec());

    let empty = VertexLayout {
        stride: 0,
        layout: MeshLayout::Planar,
        attributes: &[],
    };
    assert!(empty.placed_attributes().is_empty());
}

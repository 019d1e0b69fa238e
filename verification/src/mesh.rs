//! How the vertices of a mesh are laid out in memory.

use vstd::prelude::*;

verus! {

/// How the attributes of the vertices of a mesh follow each other.
#[derive(Copy, Clone, Debug, PartialEq, Eq, Structural)]
pub enum MeshLayout {
    /// All values of one attribute, then all values of the next.
    Planar,
    /// All attributes of one vertex, then all of the next.
    Interleaved,
}

/// The format of one attribute of a vertex: one to four numbers of 32 bits
/// each.
#[derive(Copy, Clone, Debug, PartialEq, Eq, Structural)]
pub enum AttributeFormat {
    Float32,
    Float32x2,
    Float32x3,
    Float32x4,
}

impl AttributeFormat {
    /// How many numbers an attribute of this format holds.
    pub open spec fn components(&self) -> nat {
        match self {
            AttributeFormat::Float32 => 1,
            AttributeFormat::Float32x2 => 2,
            AttributeFormat::Float32x3 => 3,
            AttributeFormat::Float32x4 => 4,
        }
    }

    /// The size of an attribute of this format in bytes: four for each of its
    /// numbers.
    pub fn size(&self) -> (bytes: usize)
        ensures
            bytes == 4 * self.components(),
    {
        match self {
            AttributeFormat::Float32 => 4,
            AttributeFormat::Float32x2 => 8,
            AttributeFormat::Float32x3 => 12,
            AttributeFormat::Float32x4 => 16,
        }
    }
}

/// Where one attribute stands in a vertex.
#[derive(Copy, Clone, Debug, PartialEq, Eq, Structural)]
pub struct VertexAttribute {
    /// The offset of the attribute from the start of the vertex, in bytes.
    pub offset: u64,
    /// The format of the attribute.
    pub format: AttributeFormat,
    /// The place of the attribute among the attributes of the vertex, by
    /// which a shader refers to it.
    pub shader_location: u32,
}

/// The offset in bytes of the attribute at the place `position`, where the
/// attributes of `formats` follow each other without a gap.
pub open spec fn offset_of(formats: Seq<AttributeFormat>, position: int) -> nat
    decreases position,
{
    if position <= 0 {
        0
    } else {
        offset_of(formats, position - 1) + 4 * formats[position - 1].components()
    }
}

impl AttributeFormat {
    /// Places an attribute of this format at `offset`, as the attribute
    /// number `position` of its vertex, and moves `offset` behind it.
    pub fn place(&self, offset: &mut usize, position: usize) -> (attribute: VertexAttribute)
        requires
            *old(offset) + 16 <= usize::MAX,
            position <= u32::MAX,
        ensures
            attribute == (VertexAttribute {
                offset: *old(offset) as u64,
                format: *self,
                shader_location: position as u32,
            }),
            *final(offset) == *old(offset) + 4 * self.components(),
    {
        let attribute = VertexAttribute {
            offset: *offset as u64,
            format: *self,
            shader_location: position as u32,
        };

        *offset = *offset + self.size();

        attribute
    }
}

/// The layout of the vertices of a mesh.
pub struct VertexLayout<'a> {
    /// The distance in bytes from one vertex to the next.
    pub stride: usize,
    /// How the attributes follow each other.
    pub layout: MeshLayout,
    /// The formats of the attributes, in their order.
    pub attributes: &'a [AttributeFormat],
}

impl<'a> VertexLayout<'a> {
    /// The attributes of a vertex, each at the offset at which the
    /// attributes before it end, and numbered in their order.
    pub fn placed_attributes(&self) -> (placed: Vec<VertexAttribute>)
        requires
            self.attributes@.len() <= u32::MAX,
            16 * self.attributes@.len() + 16 <= usize::MAX,
        ensures
            placed@.len() == self.attributes@.len(),
            forall|i: int|
                0 <= i < placed@.len() ==> #[trigger] placed@[i] == (VertexAttribute {
                    offset: offset_of(self.attributes@, i) as u64,
                    format: self.attributes@[i],
                    shader_location: i as u32,
                }),
    {
        let mut placed: Vec<VertexAttribute> = Vec::new();
        let mut offset: usize = 0;
        let mut position: usize = 0;
        while position < self.attributes.len()
            invariant
                self.attributes@.len() <= u32::MAX,
                16 * self.attributes@.len() + 16 <= usize::MAX,
                position <= self.attributes@.len(),
                offset == offset_of(self.attributes@, position as int),
                offset <= 16 * position,
                placed@.len() == position,
                forall|i: int|
                    0 <= i < position ==> #[trigger] placed@[i] == (VertexAttribute {
                        offset: offset_of(self.attributes@, i) as u64,
                        format: self.attributes@[i],
                        shader_location: i as u32,
                    }),
            decreases self.attributes@.len() - position,
        {
            let attribute = self.attributes[position].place(&mut offset, position);
            placed.push(attribute);
            position = position + 1;
        }
        placed
    }
}

/// A type whose values are the vertices of a mesh.
pub trait Vertex: Sized {
    /// The formats of the attributes of a vertex, in their order.
    open spec fn attribute_formats() -> Seq<AttributeFormat> {
        arbitrary()
    }

    /// The formats of the attributes of a vertex, in their order.
    fn attributes() -> (formats: &'static [AttributeFormat])
        ensures
            formats@ == Self::attribute_formats(),
    ;

    /// The layout of a mesh of such vertices: interleaved, one vertex after
    /// the other.
    fn layout() -> (layout: VertexLayout<'static>)
        ensures
            layout.stride as nat == vstd::layout::size_of::<Self>(),
            layout.layout == MeshLayout::Interleaved,
            layout.attributes@ == Self::attribute_formats(),
    {
        VertexLayout {
            stride: core::mem::size_of::<Self>(),
            layout: MeshLayout::Interleaved,
            attributes: Self::attributes(),
        }
    }
}

/// A buffer that holds vertices.
pub trait VertexBuffer {
}

/// A mesh.
pub trait Mesh {
}

} // verus!

use vstd::prelude::*;

verus! {

/// A rectangle in the item's local coordinate space.
#[derive(Clone, Copy, Debug, PartialEq, Eq, Structural)]
pub struct Rect {
    pub x: i64,
    pub y: i64,
    pub width: i64,
    pub height: i64,
}

/// How a kind of item computes its geometry.
#[derive(Clone, Copy, Debug, PartialEq, Eq, Structural)]
pub enum GeometryFn {
    /// x, y, width and height are the item's first four words.
    Fields,
    /// The item has no extent of its own.
    Empty,
}

/// How an image is fitted into its item.
#[derive(Clone, Copy, Debug, PartialEq, Eq, Structural)]
pub enum AspectRatio {
    Stretch,
    Fit,
    Crop,
}

/// One step of a vector path.
#[derive(Clone, Copy, Debug, PartialEq, Eq, Structural)]
pub enum PathElement {
    MoveTo { x: i128, y: i128 },
    LineTo { x: i128, y: i128 },
    Close,
}

/// What a rendering function produces for one item.
#[derive(Clone, Debug, PartialEq, Eq)]
pub enum RenderingInfo {
    NoContents,
    Path(Vec<PathElement>),
    Image(i64, AspectRatio),
    Text(String),
}

/// The mathematical value of a `RenderingInfo`.
pub enum Content {
    NoContents,
    Path(Seq<PathElement>),
    Image(i64, AspectRatio),
    Text(Seq<char>),
}

impl View for RenderingInfo {
    type V = Content;

    open spec fn view(&self) -> Content {
        match self {
            RenderingInfo::NoContents => Content::NoContents,
            RenderingInfo::Path(p) => Content::Path(p@),
            RenderingInfo::Image(h, a) => Content::Image(*h, *a),
            RenderingInfo::Text(t) => Content::Text(t@),
        }
    }
}

/// How a kind of item produces its rendering content.
#[derive(Clone, Copy, Debug, PartialEq, Eq, Structural)]
pub enum RenderFn {
    /// The outline of the item's geometry.
    RectanglePath,
    /// The image whose handle is the item's word at `handle_field`.
    ImageAt { handle_field: usize, aspect: AspectRatio },
}

/// What a layout algorithm reads of an item.
#[derive(Clone, Copy, Debug, PartialEq, Eq, Structural)]
pub struct LayoutInfo {
    pub min_size: i64,
    /// Word offset of the item's width within the item.
    pub width_offset: usize,
}

/// How a kind of item reports its layout metadata: the minimum size is the
/// item's word at `min_size_field`, the width its word at `width_field`.
#[derive(Clone, Copy, Debug, PartialEq, Eq, Structural)]
pub struct LayoutFn {
    pub min_size_field: usize,
    pub width_field: usize,
}

#[derive(Clone, Copy, Debug, PartialEq, Eq, Structural)]
pub enum MouseEventKind {
    Pressed,
    Released,
    Moved,
}

/// A pointer event in screen coordinates.
#[derive(Clone, Copy, Debug, PartialEq, Eq, Structural)]
pub struct MouseEvent {
    pub x: i64,
    pub y: i64,
    pub kind: MouseEventKind,
}

/// How a kind of item reacts to a pointer event: the item's word at
/// `pressed_field` becomes 1 on a press and 0 on a release.
#[derive(Clone, Copy, Debug, PartialEq, Eq, Structural)]
pub struct InputFn {
    pub pressed_field: usize,
}

/// The behaviour of one kind of item. Absent optional functions mean that
/// the kind has nothing to do there.
#[derive(Clone, Copy, Debug, PartialEq, Eq, Structural)]
pub struct ItemVTable {
    pub geometry: GeometryFn,
    /// Word offset of the item's render-cache slot within the item.
    pub render_node_offset: usize,
    pub rendering_info: Option<RenderFn>,
    pub layouting_info: Option<LayoutFn>,
    pub input_event: Option<InputFn>,
}

impl ItemVTable {
    /// A pure structural item: no rendering, layout or input behaviour.
    pub open spec fn is_structural(self) -> bool {
        self.rendering_info is None && self.layouting_info is None && self.input_event is None
    }

    /// Word of the render-cache slot's handle, for an item at `offset`.
    pub open spec fn slot_at(self, offset: int) -> int {
        offset + self.render_node_offset
    }

    /// The words that the kind's functions read or write, for an item at
    /// `offset`, are `offset + k` for these `k`.
    pub open spec fn field_word(self, k: int) -> bool {
        ||| (self.geometry is Fields && 0 <= k < 4)
        ||| (self.rendering_info matches Some(RenderFn::ImageAt { handle_field, .. }) && k
            == handle_field)
        ||| (self.layouting_info matches Some(l) && (k == l.min_size_field || k == l.width_field))
        ||| (self.input_event matches Some(e) && k == e.pressed_field)
    }

    /// Every word the kind uses, slot included, lies in a block of `len`
    /// words for an item at `offset`, and the slot is apart from the fields.
    pub open spec fn fits(self, offset: int, len: int) -> bool {
        &&& 0 <= offset
        &&& self.slot_at(offset) + 2 <= len
        &&& self.geometry is Fields ==> offset + 4 <= len
        &&& (self.rendering_info matches Some(RenderFn::ImageAt { handle_field, .. })
            ==> offset + handle_field < len)
        &&& (self.layouting_info matches Some(l) ==> offset + l.min_size_field < len && offset
            + l.width_field < len)
        &&& (self.input_event matches Some(e) ==> offset + e.pressed_field < len)
        &&& !self.field_word(self.render_node_offset as int)
        &&& !self.field_word(self.render_node_offset + 1)
    }
}

pub open spec fn geometry_spec(g: GeometryFn, data: Seq<i64>, offset: int) -> Rect {
    match g {
        GeometryFn::Fields => Rect {
            x: data[offset],
            y: data[offset + 1],
            width: data[offset + 2],
            height: data[offset + 3],
        },
        GeometryFn::Empty => Rect { x: 0, y: 0, width: 0, height: 0 },
    }
}

/// The closed outline of a rectangle, clockwise from its origin.
pub open spec fn rect_path(r: Rect) -> Seq<PathElement> {
    seq![
        PathElement::MoveTo { x: r.x as i128, y: r.y as i128 },
        PathElement::LineTo { x: (r.x + r.width) as i128, y: r.y as i128 },
        PathElement::LineTo { x: (r.x + r.width) as i128, y: (r.y + r.height) as i128 },
        PathElement::LineTo { x: r.x as i128, y: (r.y + r.height) as i128 },
        PathElement::Close,
    ]
}

/// What rendering an item yields: nothing when its kind has no rendering
/// function.
pub open spec fn rendering_spec(vt: ItemVTable, data: Seq<i64>, offset: int) -> Content {
    match vt.rendering_info {
        None => Content::NoContents,
        Some(RenderFn::RectanglePath) => Content::Path(
            rect_path(geometry_spec(vt.geometry, data, offset)),
        ),
        Some(RenderFn::ImageAt { handle_field, aspect }) => Content::Image(
            data[offset + handle_field],
            aspect,
        ),
    }
}

pub open spec fn layout_spec(vt: ItemVTable, data: Seq<i64>, offset: int) -> Option<LayoutInfo> {
    match vt.layouting_info {
        None => None,
        Some(l) => Some(LayoutInfo { min_size: data[offset + l.min_size_field], width_offset: l.width_field }),
    }
}

/// Calls the kind's geometry function on the item at `offset`.
pub fn geometry(vt: &ItemVTable, data: &Vec<i64>, offset: usize) -> (r: Rect)
    requires
        vt.fits(offset as int, data@.len() as int),
    ensures
        r == geometry_spec(vt.geometry, data@, offset as int),
{
    let len = data.len();
    assert(len == data@.len());
    match vt.geometry {
        GeometryFn::Fields => Rect {
            x: data[offset],
            y: data[offset + 1],
            width: data[offset + 2],
            height: data[offset + 3],
        },
        GeometryFn::Empty => Rect { x: 0, y: 0, width: 0, height: 0 },
    }
}

fn rectangle_path(r: Rect) -> (p: Vec<PathElement>)
    ensures
        p@ == rect_path(r),
{
    let right = r.x as i128 + r.width as i128;
    let bottom = r.y as i128 + r.height as i128;
    let p = vec![
        PathElement::MoveTo { x: r.x as i128, y: r.y as i128 },
        PathElement::LineTo { x: right, y: r.y as i128 },
        PathElement::LineTo { x: right, y: bottom },
        PathElement::LineTo { x: r.x as i128, y: bottom },
        PathElement::Close,
    ];
    assert(p@ =~= rect_path(r));
    p
}

/// Renders the item at `offset` through its kind's rendering function, or
/// yields no content where the kind has none.
pub fn rendering_info(vt: &ItemVTable, data: &Vec<i64>, offset: usize) -> (r: RenderingInfo)
    requires
        vt.fits(offset as int, data@.len() as int),
    ensures
        r@ == rendering_spec(*vt, data@, offset as int),
{
    let len = data.len();
    assert(len == data@.len());
    match vt.rendering_info {
        None => RenderingInfo::NoContents,
        Some(RenderFn::RectanglePath) => RenderingInfo::Path(rectangle_path(geometry(vt, data, offset))),
        Some(RenderFn::ImageAt { handle_field, aspect }) => RenderingInfo::Image(
            data[offset + handle_field],
            aspect,
        ),
    }
}

/// The item's layout metadata, or `None` where its kind has none.
pub fn layout_info(vt: &ItemVTable, data: &Vec<i64>, offset: usize) -> (r: Option<LayoutInfo>)
    requires
        vt.fits(offset as int, data@.len() as int),
    ensures
        r == layout_spec(*vt, data@, offset as int),
{
    let len = data.len();
    assert(len == data@.len());
    match vt.layouting_info {
        None => None,
        Some(l) => Some(LayoutInfo { min_size: data[offset + l.min_size_field], width_offset: l.width_field }),
    }
}

} // verus!

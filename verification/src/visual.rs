//! Visuals: how a pixel value is put together from red, green and blue, and
//! the check that a screen's root visual does so in the expected way.

use vstd::prelude::*;

verus! {

/// The class of a visual whose pixels hold red, green and blue directly,
/// with a fixed colour map.
pub const TRUE_COLOR: u8 = 4;

/// The class of a visual whose pixels hold red, green and blue directly,
/// with a colour map that can be changed.
pub const DIRECT_COLOR: u8 = 5;

/// One visual of a screen, as the server describes it.
#[derive(Clone, Copy, Debug)]
pub struct Visual {
    pub visual_id: u32,
    pub class: u8,
    pub red_mask: u32,
    pub green_mask: u32,
    pub blue_mask: u32,
}

/// The visuals that a screen offers for one depth.
#[derive(Debug)]
pub struct Depth {
    pub depth: u8,
    pub visuals: Vec<Visual>,
}

/// A depth as a mathematical value.
pub struct DepthView {
    pub depth: u8,
    pub visuals: Seq<Visual>,
}

impl DeepView for Depth {
    type V = DepthView;

    open spec fn deep_view(&self) -> DepthView {
        DepthView { depth: self.depth, visuals: self.visuals@ }
    }
}

/// Why a visual is not as expected.
#[derive(Clone, Copy, Debug, PartialEq, Eq, Structural)]
pub enum VisualError {
    /// No depth of the screen lists the visual.
    NotFound,
    /// The visual is neither true colour nor direct colour.
    NotTrueColor,
    /// A colour mask of the visual is not one run of at most 16 bits.
    Malformed,
    /// The colour masks do not fill the depth that lists the visual.
    DepthMismatch,
}

/// The place of one colour in a pixel value: `width` bits, `shift` bits
/// from the low end. A component is at most 16 bits wide and lies within the
/// 32 bits of a pixel value.
#[derive(Clone, Copy, Debug)]
pub struct ColorComponent {
    width: u8,
    shift: u8,
}

/// The red, green and blue components of a pixel value.
#[derive(Clone, Copy, Debug)]
pub struct PixelLayout {
    red: ColorComponent,
    green: ColorComponent,
    blue: ColorComponent,
}

/// A pixel layout as a mathematical value: width and shift of red, green
/// and blue.
pub struct PixelLayoutView {
    pub red: (u8, u8),
    pub green: (u8, u8),
    pub blue: (u8, u8),
}

/// The mask of a run of `width` bits, `shift` bits from the low end.
pub open spec fn run_mask(width: u8, shift: u8) -> u32 {
    (((1u32 << (width as u32)) - 1) as u32) << (shift as u32)
}

/// Whether `width` and `shift` describe a component.
pub open spec fn fits(width: u8, shift: u8) -> bool {
    width <= 16 && shift < 32 && shift + width <= 32
}

/// Whether a colour mask is the run of `width` bits at `shift`, for a
/// component of at least one bit.
pub open spec fn is_component(mask: u32, width: u8, shift: u8) -> bool {
    1 <= width && fits(width, shift) && mask == run_mask(width, shift)
}

/// Width and shift of the component that a colour mask describes, where it
/// is one run of at least one and at most 16 bits.
pub open spec fn mask_component(mask: u32) -> Option<(u8, u8)> {
    if exists|c: (u8, u8)| is_component(mask, c.0, c.1) {
        Some(choose|c: (u8, u8)| is_component(mask, c.0, c.1))
    } else {
        None
    }
}

/// The part of a pixel value that holds `intensity`: its high `width` bits,
/// `shift` bits from the low end.
pub open spec fn component_bits(component: (u8, u8), intensity: u16) -> u32 {
    ((intensity as u32) >> ((16 - component.0) as u32)) << (component.1 as u32)
}

/// The pixel value of a colour in a layout.
pub open spec fn encoded(layout: PixelLayoutView, color: (u16, u16, u16)) -> u32 {
    component_bits(layout.red, color.0) | component_bits(layout.green, color.1) | component_bits(
        layout.blue,
        color.2,
    )
}

/// The first of the first `n` visuals with identifier `id`.
pub open spec fn first_visual(visuals: Seq<Visual>, id: u32, n: nat) -> Option<Visual>
    decreases n,
{
    if n == 0 || n > visuals.len() {
        None
    } else {
        match first_visual(visuals, id, (n - 1) as nat) {
            Some(v) => Some(v),
            None => if visuals[n - 1].visual_id == id {
                Some(visuals[n - 1])
            } else {
                None
            },
        }
    }
}

/// The first visual with identifier `id` among the first `n` depths, with
/// the depth that lists it.
pub open spec fn find_visual(depths: Seq<DepthView>, id: u32, n: nat) -> Option<(u8, Visual)>
    decreases n,
{
    if n == 0 || n > depths.len() {
        None
    } else {
        match find_visual(depths, id, (n - 1) as nat) {
            Some(found) => Some(found),
            None => match first_visual(depths[n - 1].visuals, id, depths[n - 1].visuals.len()) {
                Some(v) => Some((depths[n - 1].depth, v)),
                None => None,
            },
        }
    }
}

/// The layout of three components for a depth: each of them has to be
/// there, and together they have to be as wide as the depth.
pub open spec fn assembled(
    depth: u8,
    red: Option<(u8, u8)>,
    green: Option<(u8, u8)>,
    blue: Option<(u8, u8)>,
) -> Result<PixelLayoutView, VisualError> {
    match (red, green, blue) {
        (Some(red), Some(green), Some(blue)) => if red.0 + green.0 + blue.0 == depth {
            Ok(PixelLayoutView { red, green, blue })
        } else {
            Err(VisualError::DepthMismatch)
        },
        _ => Err(VisualError::Malformed),
    }
}

/// What the check of a visual comes to, given the visual that was found.
pub open spec fn judged(found: Option<(u8, Visual)>) -> Result<PixelLayoutView, VisualError> {
    match found {
        None => Err(VisualError::NotFound),
        Some((depth, visual)) => if visual.class != TRUE_COLOR && visual.class != DIRECT_COLOR {
            Err(VisualError::NotTrueColor)
        } else {
            assembled(
                depth,
                mask_component(visual.red_mask),
                mask_component(visual.green_mask),
                mask_component(visual.blue_mask),
            )
        },
    }
}

/// Calls `x11rb::image::ColorComponent::from_mask` and hands on width and
/// shift of the component. The crate counts the bits of the mask and the
/// zeros below them, and accepts the mask where that gives a component
/// whose run of bits is the mask: a mask of one run of at least one and at
/// most 16 bits. It refuses every other mask.
#[verifier::external_body]
fn component_of_mask(mask: u32) -> (r: Option<(u8, u8)>)
    ensures
        r matches Some(c) ==> is_component(mask, c.0, c.1),
        r is None ==> forall|c: (u8, u8)| !is_component(mask, c.0, c.1),
{
    x11rb::image::ColorComponent::from_mask(mask).ok().map(|c| (c.width(), c.shift()))
}

/// A mask is the run of one component at most.
proof fn lemma_component_unique(w1: u8, s1: u8, w2: u8, s2: u8)
    by (bit_vector)
    requires
        1 <= w1 <= 16,
        s1 < 32,
        s1 + w1 <= 32,
        1 <= w2 <= 16,
        s2 < 32,
        s2 + w2 <= 32,
        (((1u32 << (w1 as u32)) - 1) as u32) << (s1 as u32) == (((1u32 << (w2 as u32)) - 1) as u32)
            << (s2 as u32),
    ensures
        w1 == w2,
        s1 == s2,
{
}

impl View for ColorComponent {
    type V = (u8, u8);

    closed spec fn view(&self) -> (u8, u8) {
        (self.width, self.shift)
    }
}

impl ColorComponent {
    #[verifier::type_invariant]
    spec fn well_formed(self) -> bool {
        fits(self.width, self.shift)
    }

    /// A component of `width` bits at `shift`, where that is one.
    pub fn new(width: u8, shift: u8) -> (r: Option<ColorComponent>)
        ensures
            r is Some <==> fits(width, shift),
            r matches Some(c) ==> c@ == (width, shift),
    {
        if width > 16 || shift >= 32 || shift + width > 32 {
            None
        } else {
            Some(ColorComponent { width, shift })
        }
    }

    /// The component that a colour mask describes, where it describes one.
    pub fn from_mask(mask: u32) -> (r: Option<ColorComponent>)
        ensures
            views(r) == mask_component(mask),
            r matches Some(c) ==> is_component(mask, c@.0, c@.1),
    {
        match component_of_mask(mask) {
            Some((width, shift)) => {
                proof {
                    let found = (width, shift);
                    assert(is_component(mask, found.0, found.1));
                    let c = choose|c: (u8, u8)| is_component(mask, c.0, c.1);
                    lemma_component_unique(c.0, c.1, width, shift);
                }
                Some(ColorComponent { width, shift })
            },
            None => None,
        }
    }

    /// The number of bits of the component.
    pub fn width(&self) -> (r: u8)
        ensures
            r == self@.0,
            r <= 16,
    {
        proof {
            use_type_invariant(self);
        }
        self.width
    }

    /// The number of bits below the component.
    pub fn shift(&self) -> (r: u8)
        ensures
            r == self@.1,
            r < 32,
    {
        proof {
            use_type_invariant(self);
        }
        self.shift
    }

    /// Puts an intensity in its place: its high bits, as many as the
    /// component is wide, shifted to where the component lies.
    pub fn encode(&self, intensity: u16) -> (r: u32)
        ensures
            r == component_bits(self@, intensity),
    {
        proof {
            use_type_invariant(self);
        }
        ((intensity as u32) >> ((16 - self.width) as u32)) << (self.shift as u32)
    }
}

/// Width and shift of a component that may be missing.
pub open spec fn views(component: Option<ColorComponent>) -> Option<(u8, u8)> {
    match component {
        Some(c) => Some(c@),
        None => None,
    }
}

impl View for PixelLayout {
    type V = PixelLayoutView;

    closed spec fn view(&self) -> PixelLayoutView {
        PixelLayoutView { red: self.red@, green: self.green@, blue: self.blue@ }
    }
}

impl PixelLayout {
    /// The layout with the given components.
    pub fn new(red: ColorComponent, green: ColorComponent, blue: ColorComponent) -> (r: PixelLayout)
        ensures
            r@ == (PixelLayoutView { red: red@, green: green@, blue: blue@ }),
    {
        PixelLayout { red, green, blue }
    }

    /// The layout of three components for a depth, where each of them is
    /// there and together they are as wide as the depth.
    pub fn assemble(
        depth: u8,
        red: Option<ColorComponent>,
        green: Option<ColorComponent>,
        blue: Option<ColorComponent>,
    ) -> (r: Result<PixelLayout, VisualError>)
        ensures
            r is Ok <==> assembled(depth, views(red), views(green), views(blue)) is Ok,
            r matches Ok(layout) ==> assembled(depth, views(red), views(green), views(blue)) == Ok::<
                PixelLayoutView,
                VisualError,
            >(layout@),
            r matches Err(e) ==> assembled(depth, views(red), views(green), views(blue)) == Err::<
                PixelLayoutView,
                VisualError,
            >(e),
    {
        match (red, green, blue) {
            (Some(red), Some(green), Some(blue)) => {
                let layout = PixelLayout::new(red, green, blue);
                if layout.depth() == depth {
                    Ok(layout)
                } else {
                    Err(VisualError::DepthMismatch)
                }
            },
            _ => Err(VisualError::Malformed),
        }
    }

    /// The number of bits of a pixel value that hold colour.
    pub fn depth(&self) -> (r: u8)
        ensures
            r == self@.red.0 + self@.green.0 + self@.blue.0,
    {
        self.red.width() + self.green.width() + self.blue.width()
    }

    /// The pixel value of a colour: each intensity in its place.
    pub fn encode(&self, color: (u16, u16, u16)) -> (r: u32)
        ensures
            r == encoded(self@, color),
    {
        self.red.encode(color.0) | self.green.encode(color.1) | self.blue.encode(color.2)
    }
}

/// Finds the first visual with identifier `id` in a list of visuals.
fn find_in(visuals: &Vec<Visual>, id: u32) -> (r: Option<Visual>)
    ensures
        r == first_visual(visuals@, id, visuals@.len()),
{
    let mut i: usize = 0;
    while i < visuals.len()
        invariant
            i <= visuals@.len(),
            first_visual(visuals@, id, i as nat) is None,
        decreases visuals@.len() - i,
    {
        if visuals[i].visual_id == id {
            proof {
                lemma_first_visual_stays(visuals@, id, (i + 1) as nat, visuals@.len());
            }
            return Some(visuals[i]);
        }
        i = i + 1;
    }
    None
}

/// Once a visual is found among the first `n`, it is the one found among
/// more.
proof fn lemma_first_visual_stays(visuals: Seq<Visual>, id: u32, n: nat, m: nat)
    requires
        n <= m <= visuals.len(),
        first_visual(visuals, id, n) is Some,
    ensures
        first_visual(visuals, id, m) == first_visual(visuals, id, n),
    decreases m,
{
    if n < m {
        lemma_first_visual_stays(visuals, id, n, (m - 1) as nat);
    }
}

/// Once a visual is found among the first `n` depths, it is the one found
/// among more.
proof fn lemma_find_visual_stays(depths: Seq<DepthView>, id: u32, n: nat, m: nat)
    requires
        n <= m <= depths.len(),
        find_visual(depths, id, n) is Some,
    ensures
        find_visual(depths, id, m) == find_visual(depths, id, n),
    decreases m,
{
    if n < m {
        lemma_find_visual_stays(depths, id, n, (m - 1) as nat);
    }
}

/// Judges a visual that was looked up: it has to be there, to be true or
/// direct colour, to have well-formed masks, and to fill its depth.
pub fn judge(found: Option<(u8, Visual)>) -> (r: Result<PixelLayout, VisualError>)
    ensures
        r is Ok <==> judged(found) is Ok,
        r matches Ok(layout) ==> judged(found) == Ok::<PixelLayoutView, VisualError>(layout@),
        r matches Err(e) ==> judged(found) == Err::<PixelLayoutView, VisualError>(e),
{
    let (depth, visual) = match found {
        None => {
            return Err(VisualError::NotFound);
        },
        Some(found) => found,
    };
    if visual.class != TRUE_COLOR && visual.class != DIRECT_COLOR {
        return Err(VisualError::NotTrueColor);
    }
    PixelLayout::assemble(
        depth,
        ColorComponent::from_mask(visual.red_mask),
        ColorComponent::from_mask(visual.green_mask),
        ColorComponent::from_mask(visual.blue_mask),
    )
}

/// Checks that the visual `id` of a screen is as expected: pixel values
/// hold red, green and blue directly, each in one run of bits, and together
/// they fill the depth that lists the visual.
pub fn check_visual(allowed_depths: &Vec<Depth>, id: u32) -> (r: Result<PixelLayout, VisualError>)
    ensures
        r is Ok <==> judged(find_visual(allowed_depths.deep_view(), id, allowed_depths@.len())) is Ok,
        r matches Ok(layout) ==> judged(
            find_visual(allowed_depths.deep_view(), id, allowed_depths@.len()),
        ) == Ok::<PixelLayoutView, VisualError>(layout@),
        r matches Err(e) ==> judged(
            find_visual(allowed_depths.deep_view(), id, allowed_depths@.len()),
        ) == Err::<PixelLayoutView, VisualError>(e),
{
    let ghost depths = allowed_depths.deep_view();
    let mut found: Option<(u8, Visual)> = None;
    let mut i: usize = 0;
    while i < allowed_depths.len()
        invariant
            i <= allowed_depths@.len(),
            depths == allowed_depths.deep_view(),
            depths.len() == allowed_depths@.len(),
            found is None,
            find_visual(depths, id, i as nat) is None,
        decreases allowed_depths@.len() - i,
    {
        let entry = &allowed_depths[i];
        proof {
            assert(depths[i as int] == entry.deep_view());
        }
        match find_in(&entry.visuals, id) {
            Some(visual) => {
                proof {
                    lemma_find_visual_stays(depths, id, (i + 1) as nat, depths.len());
                }
                return judge(Some((entry.depth, visual)));
            },
            None => {},
        }
        i = i + 1;
    }
    judge(found)
}

} // verus!

//! A glass window that sits behind another app and blurs whatever is behind it.

use crate::fade;
use crate::mapping::{self, BlurRadius};
use crate::target::Bounds;
use crate::text;
use vstd::prelude::*;
use vstd::string::*;

verus! {

pub const WM_ERASEBKGND: u32 = 0x0014;

pub const WM_NCHITTEST: u32 = 0x0084;

pub const HTTRANSPARENT: isize = -1;

/// What blurs the picture behind a glass window.
#[derive(Debug, Clone, Copy, PartialEq, Eq, Structural)]
pub enum Backdrop {
    /// A blur whose radius can be changed.
    Gaussian,
    /// The blur of the system, with a tint that can be changed.
    Acrylic,
}

/// Whether this PC has the adjustable blur.
#[derive(Debug, Clone, Copy, PartialEq, Eq, Structural)]
pub struct GlassSession {
    pub adjustable: bool,
}

impl GlassSession {
    pub fn new(built: bool) -> (r: GlassSession)
        ensures
            r.adjustable == built,
    {
        GlassSession { adjustable: built }
    }

    /// True when the blur radius cannot be changed and the slider sets the tint instead.
    pub fn fallback(&self) -> (r: bool)
        ensures
            r == !self.adjustable,
    {
        !self.adjustable
    }

    /// Decides what a new glass window uses. `attached` is what came of attaching the adjustable
    /// blur, which is tried where this PC has it. When that fails it is not tried again.
    pub fn open(&mut self, attached: Option<bool>) -> (r: Backdrop)
        requires
            attached is Some <==> old(self).adjustable,
        ensures
            r == if attached == Some(true) {
                Backdrop::Gaussian
            } else {
                Backdrop::Acrylic
            },
            final(self).adjustable == (attached == Some(true)),
    {
        match attached {
            Some(true) => Backdrop::Gaussian,
            _ => {
                self.adjustable = false;
                Backdrop::Acrylic
            },
        }
    }
}

/// How to change the blur of a glass window.
#[derive(Debug, Clone, Copy, PartialEq, Eq, Structural)]
pub enum BlurPlan {
    Radius(BlurRadius),
    /// Tint the system's acrylic with this color, as alpha, blue, green, red.
    Tint(u32),
}

/// A neutral dark tint. The alpha byte is what the slider moves.
pub open spec fn tint_color(blur: u8) -> u32 {
    (mapping::tint_of(blur) * 0x100_0000 + 0x18_1818) as u32
}

/// The color of the system's acrylic, as alpha, blue, green, red.
pub fn apply_acrylic(blur: u8) -> (r: u32)
    ensures
        r == tint_color(blur),
{
    let alpha: u32 = mapping::blur_strength_to_tint_alpha(blur) as u32;
    alpha * 0x100_0000 + 0x18_1818
}

/// What Windows says about where a glass window is.
#[derive(Debug, Clone, Copy, PartialEq, Eq, Structural)]
pub struct PaneFacts {
    pub rect: Option<Bounds>,
    pub visible: bool,
    /// The window right below the app is the glass.
    pub is_next: bool,
}

impl PaneFacts {
    pub open spec fn fits(self, bounds: Bounds) -> bool {
        self.rect == Some(bounds) && self.visible && self.is_next
    }
}

/// How to move a glass window.
#[derive(Debug, Clone, Copy, PartialEq, Eq)]
pub struct PlacePlan {
    /// The z-order band to enter first: above other windows or not.
    pub band: Option<bool>,
    pub left: i32,
    pub top: i32,
    pub size: (i32, i32),
}

pub open spec fn place_of(was: Option<bool>, bounds: Bounds, topmost: bool) -> PlacePlan {
    PlacePlan {
        band: if topmost != (was == Some(true)) {
            Some(topmost)
        } else {
            None
        },
        left: bounds.left,
        top: bounds.top,
        size: fade::size_of(bounds, 0, 1),
    }
}

/// What keeps a glass window with its app.
#[derive(Debug, Clone, Copy, PartialEq, Eq)]
pub enum FollowPlan {
    Stay,
    /// Take the glass off the screen.
    Conceal,
    Place(PlacePlan),
}

pub struct GlassPane {
    pub backdrop: Backdrop,
    /// The app's picture for solid text is drawn over the blur.
    pub content: bool,
    /// Which z-order band the pane is in, or None while it is hidden.
    pub topmost: Option<bool>,
}

impl GlassPane {
    pub open spec fn placing(self, facts: PaneFacts, bounds: Bounds, topmost: bool) -> Option<
        PlacePlan,
    > {
        if self.topmost == Some(topmost) && facts.fits(bounds) {
            None
        } else {
            Some(place_of(self.topmost, bounds, topmost))
        }
    }

    pub open spec fn following(
        self,
        out_of_view: bool,
        facts: PaneFacts,
        bounds: Bounds,
        topmost: bool,
    ) -> FollowPlan {
        if out_of_view {
            if self.topmost is Some {
                FollowPlan::Conceal
            } else {
                FollowPlan::Stay
            }
        } else {
            match self.placing(facts, bounds, topmost) {
                Some(plan) => FollowPlan::Place(plan),
                None => FollowPlan::Stay,
            }
        }
    }

    /// A new pane is hidden.
    pub fn new(backdrop: Backdrop) -> (r: GlassPane)
        ensures
            r == (GlassPane { backdrop, content: false, topmost: None }),
    {
        GlassPane { backdrop, content: false, topmost: None }
    }

    pub fn set_blur(&self, blur: u8) -> (r: BlurPlan)
        ensures
            r == match self.backdrop {
                Backdrop::Gaussian => BlurPlan::Radius(mapping::radius_of(blur)),
                Backdrop::Acrylic => BlurPlan::Tint(tint_color(blur)),
            },
    {
        match self.backdrop {
            Backdrop::Gaussian => BlurPlan::Radius(mapping::blur_strength_to_radius(blur)),
            Backdrop::Acrylic => BlurPlan::Tint(apply_acrylic(blur)),
        }
    }

    /// Records that a picture is drawn over the blur. Gives whether an older one is to be removed.
    pub fn show_content(&mut self) -> (r: Result<bool, String>)
        ensures
            r is Ok <==> old(self).backdrop == Backdrop::Gaussian,
            match r {
                Ok(replaced) => replaced == old(self).content && *final(self) == (GlassPane {
                    content: true,
                    ..*old(self)
                }),
                Err(text) => text@
                    == "Solid text needs the adjustable blur, which this PC does not have."@
                    && *final(self) == *old(self),
            },
    {
        match self.backdrop {
            Backdrop::Gaussian => {
                let replaced: bool = self.content;
                self.content = true;
                Ok(replaced)
            },
            Backdrop::Acrylic => Err(
                "Solid text needs the adjustable blur, which this PC does not have.".to_owned(),
            ),
        }
    }

    /// Gives whether there is a picture to be removed.
    pub fn hide_content(&mut self) -> (r: bool)
        ensures
            r == old(self).content,
            *final(self) == (GlassPane { content: false, ..*old(self) }),
    {
        let shown: bool = self.content;
        self.content = false;
        shown
    }

    /// Size the pane to `bounds` and put it directly beneath the app in the z-order. Nothing is to
    /// be done when it is there already.
    pub fn place_under(&mut self, facts: PaneFacts, bounds: Bounds, topmost: bool) -> (r: Option<
        PlacePlan,
    >)
        ensures
            r == old(self).placing(facts, bounds, topmost),
            *final(self) == (GlassPane { topmost: Some(topmost), ..*old(self) }),
    {
        let was: bool = match self.topmost {
            Some(band) => band,
            None => false,
        };
        let same: bool = self.topmost.is_some() && was == topmost;
        if same && sits_under(&facts, &bounds) {
            return None;
        }
        self.topmost = Some(topmost);
        let band: Option<bool> = if topmost != was {
            Some(topmost)
        } else {
            None
        };
        Some(
            PlacePlan {
                band,
                left: bounds.left,
                top: bounds.top,
                size: fade::pane_size(&bounds),
            },
        )
    }

    /// Keeps the pane with its app: hidden while the app is out of view, else right beneath it.
    pub fn follow(
        &mut self,
        out_of_view: bool,
        facts: PaneFacts,
        bounds: Bounds,
        topmost: bool,
    ) -> (r: FollowPlan)
        ensures
            r == old(self).following(out_of_view, facts, bounds, topmost),
            *final(self) == (GlassPane {
                topmost: if out_of_view {
                    None
                } else {
                    Some(topmost)
                },
                ..*old(self)
            }),
    {
        if out_of_view {
            if self.take_down() {
                FollowPlan::Conceal
            } else {
                FollowPlan::Stay
            }
        } else {
            match self.place_under(facts, bounds, topmost) {
                Some(plan) => FollowPlan::Place(plan),
                None => FollowPlan::Stay,
            }
        }
    }

    /// Gives whether the pane was on screen and is to be hidden.
    pub fn take_down(&mut self) -> (r: bool)
        ensures
            r == old(self).topmost is Some,
            *final(self) == (GlassPane { topmost: None, ..*old(self) }),
    {
        let shown: bool = self.topmost.is_some();
        self.topmost = None;
        shown
    }
}

/// Checks the real window rather than a cached position, so outside moves get corrected.
fn sits_under(facts: &PaneFacts, bounds: &Bounds) -> (r: bool)
    ensures
        r == facts.fits(*bounds),
{
    match facts.rect {
        Some(rect) => rect == *bounds && facts.visible && facts.is_next,
        None => false,
    }
}

/// The number of a property of the blur effect.
pub fn property_index(name: &str) -> (r: Option<u32>)
    ensures
        r == if name@ == "BlurAmount"@ || name@ == "StandardDeviation"@ {
            Some(0u32)
        } else if name@ == "Optimization"@ {
            Some(1u32)
        } else if name@ == "BorderMode"@ {
            Some(2u32)
        } else {
            None
        },
{
    if text::same_text(name, "BlurAmount") || text::same_text(name, "StandardDeviation") {
        Some(0)
    } else if text::same_text(name, "Optimization") {
        Some(1)
    } else if text::same_text(name, "BorderMode") {
        Some(2)
    } else {
        None
    }
}

/// The value of a property of the blur effect.
#[derive(Debug, Clone, Copy, PartialEq, Eq, Structural)]
pub enum Property {
    Deviation,
    Number(u32),
}

/// The value of each property: the deviation, balanced optimization, and hard borders.
pub fn property(index: u32) -> (r: Option<Property>)
    ensures
        r == if index == 0 {
            Some(Property::Deviation)
        } else if index <= 2 {
            Some(Property::Number(1))
        } else {
            None
        },
{
    if index == 0 {
        Some(Property::Deviation)
    } else if index <= 2 {
        Some(Property::Number(1))
    } else {
        None
    }
}

/// How a glass window answers a message itself: it paints nothing, and every click goes through.
pub fn glass_proc(message: u32) -> (r: Option<isize>)
    ensures
        r == if message == WM_ERASEBKGND {
            Some(1isize)
        } else if message == WM_NCHITTEST {
            Some(HTTRANSPARENT)
        } else {
            None
        },
        message == 0x0014 ==> r == Some(1isize),
        message == 0x0084 ==> r == Some(-1isize),
{
    if message == WM_ERASEBKGND {
        Some(1)
    } else if message == WM_NCHITTEST {
        Some(HTTRANSPARENT)
    } else {
        None
    }
}

/// The glass follows the app. Once it was placed and nothing moved there is nothing more to do;
/// when it was hidden, or is not where it belongs, it is placed again, never empty and in the
/// app's band. While the app is out of view it is hidden, once.
pub proof fn the_glass_follows(pane: GlassPane, facts: PaneFacts, bounds: Bounds, topmost: bool)
    ensures
        ({
            let placed = GlassPane { topmost: Some(topmost), ..pane };
            let hidden = GlassPane { topmost: None, ..pane };
            &&& placed.following(false, facts, bounds, topmost) == FollowPlan::Stay
                <==> facts.fits(bounds)
            &&& hidden.following(false, facts, bounds, topmost) is Place
            &&& placed.following(true, facts, bounds, topmost) == FollowPlan::Conceal
            &&& hidden.following(true, facts, bounds, topmost) == FollowPlan::Stay
            &&& pane.placing(facts, bounds, topmost) matches Some(plan) ==> 1 <= plan.size.0 && 1
                <= plan.size.1 && (match plan.band {
                Some(band) => band == topmost,
                None => (pane.topmost == Some(true)) == topmost,
            })
        }),
{
}

/// With the system's acrylic, a stronger blur is milkier.
pub proof fn a_stronger_blur_is_milkier(a: u8, b: u8)
    requires
        a <= b,
    ensures
        tint_color(a) <= tint_color(b),
{
    mapping::blur_orders_radius_and_tint(a, b);
}

/// The glass is put where the app is: its upper left corner is that of the app, and it is as wide
/// and as high, wherever on the screens that is. A side that is empty gets one pixel, and one that
/// is too long for a window the longest there is. Glass that has the place of the app, is on screen
/// and right below the app stays, and no other does.
pub proof fn the_glass_is_put_where_the_app_is(
    pane: GlassPane,
    facts: PaneFacts,
    bounds: Bounds,
    topmost: bool,
)
    ensures
        match pane.following(false, facts, bounds, topmost) {
            FollowPlan::Place(plan) => {
                &&& plan.left == bounds.left
                &&& plan.top == bounds.top
                &&& 0 < bounds.right - bounds.left <= i32::MAX ==> plan.left + plan.size.0
                    == bounds.right
                &&& 0 < bounds.bottom - bounds.top <= i32::MAX ==> plan.top + plan.size.1
                    == bounds.bottom
                &&& bounds.right - bounds.left > i32::MAX ==> plan.size.0 == i32::MAX
                &&& bounds.bottom - bounds.top > i32::MAX ==> plan.size.1 == i32::MAX
                &&& bounds.left >= bounds.right ==> plan.size.0 == 1
                &&& bounds.top >= bounds.bottom ==> plan.size.1 == 1
                &&& pane.topmost == Some(true) && !topmost ==> plan.band == Some(false)
                &&& pane.topmost != Some(true) && topmost ==> plan.band == Some(true)
                &&& (pane.topmost == Some(true)) == topmost ==> plan.band is None
            },
            FollowPlan::Stay => pane.topmost == Some(topmost) && facts.rect == Some(bounds)
                && facts.visible && facts.is_next,
            FollowPlan::Conceal => false,
        },
        pane.following(false, facts, bounds, topmost) == FollowPlan::Stay <==> pane.topmost == Some(
            topmost,
        ) && facts.rect == Some(bounds) && facts.visible && facts.is_next,
        pane.placing(facts, bounds, topmost) == match pane.following(
            false,
            facts,
            bounds,
            topmost,
        ) {
            FollowPlan::Place(plan) => Some(plan),
            _ => None,
        },
{
}

/// While the app is out of view its glass is taken off the screen if it is there, and put nowhere.
pub proof fn the_glass_goes_with_the_app(
    pane: GlassPane,
    facts: PaneFacts,
    bounds: Bounds,
    topmost: bool,
)
    ensures
        pane.topmost is Some ==> pane.following(true, facts, bounds, topmost)
            == FollowPlan::Conceal,
        pane.topmost is None ==> pane.following(true, facts, bounds, topmost) == FollowPlan::Stay,
{
}

/// The tint is a dark grey whose opacity alone follows the slider.
pub proof fn the_tint_is_a_grey_as_strong_as_the_blur(blur: u8)
    ensures
        tint_color(blur) / 0x100_0000 == mapping::tint_of(blur),
        tint_color(blur) % 0x100 == 0x18,
        tint_color(blur) / 0x100 % 0x100 == 0x18,
        tint_color(blur) / 0x1_0000 % 0x100 == 0x18,
{
}

} // verus!

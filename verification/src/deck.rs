//! The presentation state: the slides, their pictures and the slide on
//! screen, and what each input action does to it.
use vstd::prelude::*;

use crate::config::Action;
use crate::img::{spec_draw, spec_fit_rect, Img, ImgView};
use crate::slide::{slides_view, Slide, SlideView};

verus! {

/// What the windowing side has to do after an action.
#[derive(Clone, Copy, Debug, PartialEq, Eq, Structural)]
pub enum Effect {
    /// Nothing changed.
    Nothing,
    /// The slide on screen changed: draw again.
    Redraw,
    /// Read the slide file again and hand the result to `Deck::reload`.
    Reload,
    /// Close the window.
    Quit,
}

/// The slides of a presentation, the picture of each image slide, and the
/// slide on screen.
pub struct Deck {
    slides: Vec<Slide>,
    images: Vec<Option<Img>>,
    idx: usize,
}

pub struct DeckView {
    pub slides: Seq<SlideView>,
    pub images: Seq<Option<ImgView>>,
    pub idx: int,
}

pub open spec fn image_view(o: Option<Img>) -> Option<ImgView> {
    match o {
        Some(im) => Some(im@),
        None => None,
    }
}

pub open spec fn images_view(v: Seq<Option<Img>>) -> Seq<Option<ImgView>> {
    v.map_values(|o: Option<Img>| image_view(o))
}

/// The slide that moving `by` slides from `idx` lands on among `n`: the
/// target clamped to the first and the last slide.
pub open spec fn spec_advance(idx: int, by: int, n: int) -> int {
    let t = idx + by;
    if t < 0 {
        0
    } else if t > n - 1 {
        n - 1
    } else {
        t
    }
}

impl View for Deck {
    type V = DeckView;

    closed spec fn view(&self) -> DeckView {
        DeckView {
            slides: slides_view(self.slides@),
            images: images_view(self.images@),
            idx: self.idx as int,
        }
    }
}

impl Deck {
    #[verifier::type_invariant]
    closed spec fn wf(self) -> bool {
        &&& self.slides@.len() > 0
        &&& self.images@.len() == self.slides@.len()
        &&& self.idx < self.slides@.len()
    }

    /// The size of the scaled copy kept for the picture of slide `i`.
    pub closed spec fn cached_size(&self, i: int) -> Option<(u32, u32)> {
        match self.images@[i] {
            Some(im) => im.cached_size(),
            None => None,
        }
    }

    /// A presentation of `slides` (with the picture of each image slide in
    /// `images`), on its first slide.
    pub fn new(slides: Vec<Slide>, images: Vec<Option<Img>>) -> (d: Deck)
        requires
            slides@.len() > 0,
            images@.len() == slides@.len(),
        ensures
            d@.slides == slides_view(slides@),
            d@.images == images_view(images@),
            d@.idx == 0,
    {
        Deck { slides, images, idx: 0 }
    }

    /// The number of slides (never 0).
    pub fn len(&self) -> (n: usize)
        ensures
            n == self@.slides.len(),
            n > 0,
            self@.images.len() == n,
    {
        proof {
            use_type_invariant(self);
        }
        self.slides.len()
    }

    /// The slide on screen.
    pub fn index(&self) -> (i: usize)
        ensures
            i == self@.idx,
            i < self@.slides.len(),
    {
        proof {
            use_type_invariant(self);
        }
        self.idx
    }

    /// The text lines of the slide on screen.
    pub fn current_lines(&self) -> (lines: &Vec<String>)
        ensures
            crate::slide::string_seq_view(lines@) == self@.slides[self@.idx].lines,
    {
        proof {
            use_type_invariant(self);
        }
        &self.slides[self.idx].lines
    }

    /// Drops the scaled copy of the picture of slide `i`, if it has one.
    fn invalidate_at(&mut self, i: usize)
        requires
            i < old(self)@.slides.len(),
        ensures
            final(self)@ == old(self)@,
            final(self).cached_size(i as int) is None,
            forall|j: int| 0 <= j < old(self)@.slides.len() && j != i ==> final(self).cached_size(j) == old(self).cached_size(j),
    {
        proof {
            use_type_invariant(&*self);
        }
        let ghost before = self.images@;
        if let Some(im) = &mut self.images[i] {
            im.invalidate();
        }
        proof {
            assert(self.images@.len() == before.len());
            assert forall|j: int| 0 <= j < before.len() && j != i implies self.images@[j] == before[j] by {}
            assert(images_view(self.images@) =~= images_view(before));
        }
    }

    /// Moves by `by` slides, staying within the first and the last slide.
    /// Leaving a slide drops the scaled copy of its picture. Returns whether
    /// the slide on screen changed.
    pub fn advance(&mut self, by: i32) -> (moved: bool)
        ensures
            final(self)@.idx == spec_advance(old(self)@.idx, by as int, old(self)@.slides.len() as int),
            moved == (final(self)@.idx != old(self)@.idx),
            final(self)@.slides == old(self)@.slides,
            final(self)@.images == old(self)@.images,
            moved ==> final(self).cached_size(old(self)@.idx) is None,
            forall|j: int| 0 <= j < old(self)@.slides.len() && j != old(self)@.idx ==> final(self).cached_size(j) == old(self).cached_size(j),
            !moved ==> final(self).cached_size(old(self)@.idx) == old(self).cached_size(old(self)@.idx),
    {
        proof {
            use_type_invariant(&*self);
        }
        let n = self.slides.len() as i128;
        let t = self.idx as i128 + by as i128;
        let new: usize = if t < 0 {
            0
        } else if t > n - 1 {
            (n - 1) as usize
        } else {
            t as usize
        };
        if new != self.idx {
            let old_idx = self.idx;
            self.invalidate_at(old_idx);
            proof {
                use_type_invariant(&*self);
                assert(slides_view(self.slides@).len() == self.slides@.len());
            }
            self.idx = new;
            true
        } else {
            false
        }
    }

    /// Replaces the slides after the slide file was read again; the slide on
    /// screen stays, or becomes the last one if there are fewer slides now.
    pub fn reload(&mut self, slides: Vec<Slide>, images: Vec<Option<Img>>)
        requires
            slides@.len() > 0,
            images@.len() == slides@.len(),
        ensures
            final(self)@.slides == slides_view(slides@),
            final(self)@.images == images_view(images@),
            final(self)@.idx == if old(self)@.idx < slides@.len() {
                old(self)@.idx
            } else {
                slides@.len() - 1
            },
    {
        proof {
            use_type_invariant(&*self);
        }
        let n = slides.len();
        let idx = if self.idx < n - 1 {
            self.idx
        } else {
            n - 1
        };
        *self = Deck { slides, images, idx };
    }

    /// The window was resized: the picture on screen must be scaled anew.
    pub fn resized(&mut self)
        ensures
            final(self)@ == old(self)@,
            final(self).cached_size(old(self)@.idx) is None,
            forall|j: int| 0 <= j < old(self)@.slides.len() && j != old(self)@.idx ==> final(self).cached_size(j) == old(self).cached_size(j),
    {
        proof {
            use_type_invariant(&*self);
        }
        let i = self.idx;
        self.invalidate_at(i);
    }

    /// Carries out an input action: moving redraws when the slide changed,
    /// reloading and quitting are left to the windowing side.
    pub fn act(&mut self, action: Action) -> (e: Effect)
        ensures
            match action {
                Action::Advance(by) => {
                    &&& final(self)@.idx == spec_advance(old(self)@.idx, by as int, old(self)@.slides.len() as int)
                    &&& final(self)@.slides == old(self)@.slides
                    &&& final(self)@.images == old(self)@.images
                    &&& e == if final(self)@.idx != old(self)@.idx {
                        Effect::Redraw
                    } else {
                        Effect::Nothing
                    }
                },
                Action::Quit => final(self)@ == old(self)@ && e == Effect::Quit,
                Action::Reload => final(self)@ == old(self)@ && e == Effect::Reload,
            },
    {
        match action {
            Action::Advance(by) => {
                if self.advance(by) {
                    Effect::Redraw
                } else {
                    Effect::Nothing
                }
            },
            Action::Quit => Effect::Quit,
            Action::Reload => Effect::Reload,
        }
    }

    /// Draws the slide on screen if it is an image slide (scaled to fit
    /// `uw` x `uh`, centered in the `fw` x `fh` frame) and returns true;
    /// returns false, leaving the frame, for a text slide.
    pub fn draw_image(&mut self, frame: &mut [u32], fw: u32, fh: u32, uw: u32, uh: u32) -> (drawn: bool)
        requires
            uw <= fw,
            uh <= fh,
            fw as int * fh <= old(frame)@.len(),
        ensures
            final(self)@ == old(self)@,
            drawn == (old(self)@.images[old(self)@.idx] is Some),
            match old(self)@.images[old(self)@.idx] {
                Some(v) => final(frame)@ == spec_draw(v, old(frame)@, fw, fh, uw, uh),
                None => final(frame)@ == old(frame)@,
            },
    {
        proof {
            use_type_invariant(&*self);
        }
        let i = self.idx;
        let ghost before = self.images@;
        let drawn = if let Some(im) = &mut self.images[i] {
            proof {
                crate::img::lemma_fit_within(im@.w, im@.h, uw, uh);
            }
            im.draw(frame, fw, fh, uw, uh);
            true
        } else {
            false
        };
        proof {
            assert(images_view(self.images@) =~= images_view(before));
        }
        drawn
    }
}

/// Moving forward and then back by the same number of slides returns to
/// the starting slide when the first move was not cut short at either end.
pub proof fn lemma_advance_back(idx: int, by: int, n: int)
    requires
        0 <= idx < n,
        0 <= idx + by < n,
    ensures
        spec_advance(spec_advance(idx, by, n), -by, n) == idx,
{
}

/// A move whose target lies within the deck lands exactly on it: from
/// slide `idx`, moving by `by` shows slide `idx + by`, so no slide is
/// skipped or repeated by next/previous.
pub proof fn lemma_advance_exact(idx: int, by: int, n: int)
    requires
        0 <= idx + by < n,
    ensures
        spec_advance(idx, by, n) == idx + by,
{
}

/// Moves never leave the deck, and a move past either end stops at that end.
pub proof fn lemma_advance_bounds(idx: int, by: int, n: int)
    requires
        0 <= idx < n,
    ensures
        0 <= spec_advance(idx, by, n) < n,
        idx + by >= n - 1 ==> spec_advance(idx, by, n) == n - 1,
        idx + by <= 0 ==> spec_advance(idx, by, n) == 0,
{
}

} // verus!

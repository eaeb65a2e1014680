//! Which image a part shows. Images are named by their position in the list
//! in which the images of the part were loaded.

use vstd::prelude::*;

verus! {

/// The frames of an animated part.
#[derive(Clone, Debug, PartialEq, Eq)]
pub enum PartAnimation {
    OnMove { idle: usize, sequence: Vec<usize> },
    OnShoot { idle: usize, sequence: Vec<usize> },
}

/// The image of a part, and for an animated part the state of its animation.
#[derive(Clone, Debug, PartialEq, Eq)]
pub enum PartSprite {
    Basic(usize),
    Animation { current: usize, rate: usize, timer: usize, anim: PartAnimation },
}

/// The successor of a counter, which starts again at zero after the largest
/// value.
pub open spec fn next_count(count: usize) -> usize {
    if count == usize::MAX {
        0
    } else {
        (count + 1) as usize
    }
}

fn count_up(count: usize) -> (next: usize)
    ensures
        next == next_count(count),
{
    if count == usize::MAX {
        0
    } else {
        count + 1
    }
}

impl PartAnimation {
    /// The frames that are shown in turn.
    pub open spec fn frames(self) -> Seq<usize> {
        match self {
            PartAnimation::OnMove { sequence, .. } => sequence@,
            PartAnimation::OnShoot { sequence, .. } => sequence@,
        }
    }

    /// The frame that is shown while the part rests.
    pub open spec fn idle_frame(self) -> usize {
        match self {
            PartAnimation::OnMove { idle, .. } => idle,
            PartAnimation::OnShoot { idle, .. } => idle,
        }
    }
}

impl PartSprite {
    /// Whether a tick during which the vehicle moves or not can be animated: a
    /// part that is animated on movement must have a frame to show.
    pub open spec fn can_animate(self, moving: bool) -> bool {
        match self {
            PartSprite::Animation { anim: PartAnimation::OnMove { sequence, .. }, .. } => moving
                ==> sequence@.len() > 0,
            _ => true,
        }
    }

    /// The timer after a tick: it counts the ticks of movement and starts
    /// again when it reaches the rate.
    pub open spec fn timer_after(self, moving: bool) -> usize {
        match self {
            PartSprite::Animation { rate, timer, anim: PartAnimation::OnMove { .. }, .. } => if moving {
                if next_count(timer) == rate {
                    0
                } else {
                    next_count(timer)
                }
            } else {
                timer
            },
            PartSprite::Animation { timer, .. } => timer,
            PartSprite::Basic(_) => 0,
        }
    }

    /// The number of the frame after a tick: it goes up by one whenever the
    /// timer starts again.
    pub open spec fn current_after(self, moving: bool) -> usize {
        match self {
            PartSprite::Animation { current, rate, timer, anim: PartAnimation::OnMove { .. } } => if moving
                && next_count(timer) == rate {
                next_count(current)
            } else {
                current
            },
            PartSprite::Animation { current, .. } => current,
            PartSprite::Basic(_) => 0,
        }
    }

    /// The image that the part shows after a tick, or `None` for a part that
    /// is not animated, whose image stays. A part that is animated on movement
    /// shows the frames of its sequence in turn while the vehicle moves and the
    /// idle frame while it rests; a part that is animated on shooting shows its
    /// idle frame.
    pub open spec fn image_after(self, moving: bool) -> Option<usize> {
        match self {
            PartSprite::Basic(_) => None,
            PartSprite::Animation { anim: PartAnimation::OnMove { idle, sequence }, .. } => if moving {
                Some(sequence@[self.current_after(moving) as int % sequence@.len() as int])
            } else {
                Some(idle)
            },
            PartSprite::Animation { anim: PartAnimation::OnShoot { idle, .. }, .. } => Some(idle),
        }
    }

    /// Advances the animation by one tick, during which the vehicle moves or
    /// not, and returns the image to show, see `image_after`.
    pub fn animate(&mut self, moving: bool) -> (image: Option<usize>)
        requires
            old(self).can_animate(moving),
        ensures
            image == old(self).image_after(moving),
            match *old(self) {
                PartSprite::Basic(_) => *final(self) == *old(self),
                PartSprite::Animation { rate, anim, .. } => *final(self) == (PartSprite::Animation {
                    current: old(self).current_after(moving),
                    rate,
                    timer: old(self).timer_after(moving),
                    anim,
                }),
            },
    {
        match self {
            PartSprite::Basic(_) => None,
            PartSprite::Animation { current, rate, timer, anim } => match anim {
                PartAnimation::OnMove { idle, sequence } => {
                    if moving {
                        *timer = count_up(*timer);
                        if *timer == *rate {
                            *timer = 0;
                            *current = count_up(*current);
                        }
                        Some(sequence[*current % sequence.len()])
                    } else {
                        Some(*idle)
                    }
                },
                PartAnimation::OnShoot { idle, .. } => Some(*idle),
            },
        }
    }
}

} // verus!

//! Requests for animations.
use vstd::prelude::*;
use std::time::Duration;

verus! {

/// The id of an animation of an element.
pub type AnimationId = usize;

/// A request to animate, for a duration, an element's painter or its widget.
#[derive(Clone, Copy)]
pub enum AnimationRequest {
    Painter(AnimationId, Duration),
    Widget(AnimationId, Duration),
}

/// A copy of a list of animation requests.
pub fn copy_requests(v: &Vec<AnimationRequest>) -> (r: Vec<AnimationRequest>)
    ensures
        r@ == v@,
{
    let mut r: Vec<AnimationRequest> = Vec::new();
    let mut i: usize = 0;
    while i < v.len()
        invariant
            i <= v.len(),
            r@ == v@.take(i as int),
        decreases v.len() - i,
    {
        let req = match &v[i] {
            AnimationRequest::Painter(id, d) => AnimationRequest::Painter(*id, *d),
            AnimationRequest::Widget(id, d) => AnimationRequest::Widget(*id, *d),
        };
        r.push(req);
        proof {
            assert(v@.take(i + 1) =~= v@.take(i as int).push(v@[i as int]));
        }
        i += 1;
    }
    proof {
        assert(v@.take(i as int) =~= v@);
    }
    r
}

} // verus!

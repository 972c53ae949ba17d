//! What the player asks for.

use vstd::prelude::*;

use crate::words::{below, less, magnitude, value, MINUS_ONE, ONE};

verus! {

/// The word of `0.1`: a touch that turns by more than this counts as a key.
pub const DEAD_ZONE: u32 = 0x3dcc_cccd;

/// The word of `-0.1`.
pub const MINUS_DEAD_ZONE: u32 = 0xbdcc_cccd;

/// What the touch screen and the page around the game last reported.
#[derive(Clone, Copy, Debug, PartialEq, Eq, Structural)]
pub struct TouchInput {
    /// Not zero while the screen is touched to thrust.
    pub thrust: u32,
    /// The word of the torque.
    pub torque: u32,
    /// The word of the inset that keeps the display clear of the top of the screen.
    pub safe_top: u32,
    /// The word of the inset that keeps the display clear of the left of the screen.
    pub safe_left: u32,
}

/// How the ship is to turn.
#[derive(Clone, Copy, Debug, PartialEq, Eq, Structural)]
pub struct Steering {
    /// Whether the thruster for turning left burns.
    pub rotating_left: bool,
    /// Whether the thruster for turning right burns.
    pub rotating_right: bool,
    /// The word of the torque to apply.
    pub torque: u32,
}

/// Whether the ship is to turn left.
pub open spec fn turns_left(key_left: bool, torque: u32) -> bool {
    key_left || below(torque, MINUS_DEAD_ZONE)
}

/// Whether the ship is to turn right.
pub open spec fn turns_right(key_right: bool, torque: u32) -> bool {
    key_right || below(DEAD_ZONE, torque)
}

impl TouchInput {
    /// Nothing was reported.
    pub fn new() -> (r: Self)
        ensures
            r == (TouchInput { thrust: 0, torque: 0, safe_top: 0, safe_left: 0 }),
    {
        TouchInput { thrust: 0, torque: 0, safe_top: 0, safe_left: 0 }
    }
}

/// Reports whether the screen is touched to thrust.
pub fn set_touch_thrust(touch: &mut TouchInput, active: i32)
    ensures
        final(touch).thrust == active as int % 0x1_0000_0000,
        *final(touch) == (TouchInput { thrust: final(touch).thrust, ..*old(touch) }),
{
    assert(active < 0 ==> active as u32 == active + 0x1_0000_0000) by (bit_vector);
    touch.thrust =
    #[verifier::truncate]
    (active as u32);
}

/// Reports the torque that a touch asks for, as a word.
pub fn set_touch_torque(touch: &mut TouchInput, value: u32)
    ensures
        *final(touch) == (TouchInput { torque: value, ..*old(touch) }),
{
    touch.torque = value;
}

/// Reports the insets of the safe area, as words.
pub fn set_safe_area(touch: &mut TouchInput, top: u32, left: u32)
    ensures
        *final(touch) == (TouchInput { safe_top: top, safe_left: left, ..*old(touch) }),
{
    touch.safe_top = top;
    touch.safe_left = left;
}

/// Whether the main thruster burns.
pub fn thrusting_now(mouse: bool, key_down: bool, touch: &TouchInput) -> (r: bool)
    ensures
        r == (mouse || key_down || touch.thrust != 0),
{
    mouse || key_down || touch.thrust != 0
}

/// How the ship is to turn. The keys, and a touch beyond the dead zone, turn at full
/// torque, to the left if they ask for both; a lesser touch turns as far as it asks.
pub fn steer(key_left: bool, key_right: bool, touch: &TouchInput) -> (r: Steering)
    ensures
        r.rotating_left == turns_left(key_left, touch.torque),
        r.rotating_right == turns_right(key_right, touch.torque),
        r.rotating_left <==> key_left || below(touch.torque, 0xbdcc_cccd),
        r.rotating_right <==> key_right || below(0x3dcc_cccd, touch.torque),
        r.rotating_left ==> r.torque == 0xbf80_0000,
        !r.rotating_left && r.rotating_right ==> r.torque == 0x3f80_0000,
        !r.rotating_left && !r.rotating_right ==> r.torque == touch.torque,
        r.torque == (if r.rotating_left {
            MINUS_ONE
        } else if r.rotating_right {
            ONE
        } else {
            touch.torque
        }),
{
    let rotating_left = key_left || less(touch.torque, MINUS_DEAD_ZONE);
    let rotating_right = key_right || less(DEAD_ZONE, touch.torque);
    let torque: u32 = if rotating_left {
        MINUS_ONE
    } else if rotating_right {
        ONE
    } else {
        touch.torque
    };
    Steering { rotating_left, rotating_right, torque }
}

/// A touch alone never turns the ship both ways.
pub proof fn law_touch_turns_one_way(torque: u32)
    ensures
        !(turns_left(false, torque) && turns_right(false, torque)),
{
    crate::words::law_magnitude_is_increasing(0, 0x3dcc_cccd);
    assert(value(MINUS_DEAD_ZONE) == -magnitude(0x3dcc_cccd));
    assert(value(DEAD_ZONE) == magnitude(0x3dcc_cccd));
}

/// The screen is touched to thrust from a report that is not zero until one that is.
pub proof fn law_touch_thrusts_while_active(active: i32)
    ensures
        active as int % 0x1_0000_0000 != 0 <==> active != 0,
{
}

/// A key turns the ship, and so does a touch beyond the dead zone, and nothing else
/// does.
pub proof fn law_touch_turns_beyond_the_dead_zone(key: bool, torque: u32)
    ensures
        turns_left(key, torque) <==> key || below(torque, 0xbdcc_cccd),
        turns_right(key, torque) <==> key || below(0x3dcc_cccd, torque),
{
}

/// Left and right mirror each other: turning the sign of the torque over turns the
/// other way.
pub proof fn law_turning_is_mirrored(key: bool, torque: u32)
    requires
        torque < 0x8000_0000,
    ensures
        turns_left(key, (torque + 0x8000_0000) as u32) <==> turns_right(key, torque),
        turns_right(key, (torque + 0x8000_0000) as u32) <==> turns_left(key, torque),
{
    let other = (torque + 0x8000_0000) as u32;
    crate::words::law_order_follows_the_bits(other, 0xbdcc_cccd);
    crate::words::law_order_follows_the_bits(torque, 0xbdcc_cccd);
    crate::words::law_order_follows_the_bits(0x3dcc_cccd, other);
    crate::words::law_order_follows_the_bits(0x3dcc_cccd, torque);
}

/// A touch farther out than one that turns the ship turns it too.
pub proof fn law_farther_touch_turns_too(key: bool, near: u32, far: u32)
    ensures
        turns_left(key, near) && below(far, near) ==> turns_left(key, far),
        turns_right(key, near) && below(near, far) ==> turns_right(key, far),
{
}

} // verus!

//! The window that the game opens.

use vstd::prelude::*;

verus! {

/// What the game asks of its window.
#[derive(Debug, PartialEq, Eq)]
pub struct WindowConf {
    pub title: String,
    pub width: i32,
    pub height: i32,
    /// Whether to draw at the resolution of the device.
    pub high_dpi: bool,
    /// Whether to draw with the second version of the graphics interface of the web.
    pub webgl2: bool,
}

/// The window of the game.
pub fn window_conf() -> (r: WindowConf)
    ensures
        r.title@ == "Rapier 2D — Cave"@,
        r.width == 1440,
        r.height == 900,
        !r.high_dpi,
        r.webgl2,
{
    WindowConf {
        title: "Rapier 2D — Cave".to_string(),
        width: 1440,
        height: 900,
        high_dpi: false,
        webgl2: true,
    }
}

} // verus!

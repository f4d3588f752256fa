//! What a run of the alignment is told: the two texts, where to keep its
//! state, and how large a window is.

use vstd::prelude::*;

verus! {

/// The window size that is used where none is given.
pub const DEFAULT_WINDOW_SIZE: usize = 300;

/// The settings of one run.
#[derive(Clone, Debug)]
pub struct Context {
    /// The file of the left text.
    pub left: String,
    /// The file of the right text.
    pub right: String,
    /// The directory for the state of the alignment between windows and for
    /// its results.
    pub context: String,
    /// The number of units of each text that one window holds. It bounds
    /// how far the two texts may drift apart, and the time a window takes
    /// grows faster than the window.
    pub window_size: usize,
}

impl Context {
    /// The settings for two texts and a directory, with the default window
    /// size.
    pub fn new(left: String, right: String, context: String) -> (settings: Context)
        ensures
            settings.left == left,
            settings.right == right,
            settings.context == context,
            settings.window_size == DEFAULT_WINDOW_SIZE,
    {
        Context { left, right, context, window_size: DEFAULT_WINDOW_SIZE }
    }
}

} // verus!

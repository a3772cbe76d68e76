//! The command line's settings, as plain values.
use vstd::prelude::*;

verus! {

/// Where the game is saved, and whether to try loading it before starting.
#[derive(Clone, Debug, PartialEq, Eq)]
pub struct Args {
    path_game: String,
    load_game: bool,
}

impl Args {
    pub fn new(path_game: String, load_game: bool) -> (r: Args)
        ensures
            r.spec_path_game() == path_game@,
            r.spec_load_game() == load_game,
    {
        Args { path_game, load_game }
    }

    pub closed spec fn spec_path_game(&self) -> Seq<char> {
        self.path_game@
    }

    pub closed spec fn spec_load_game(&self) -> bool {
        self.load_game
    }

    /// Path to the game's save file.
    pub fn path_game(&self) -> (r: &String)
        ensures
            r@ == self.spec_path_game(),
    {
        &self.path_game
    }

    /// Whether to try loading the saved game instead of starting anew.
    pub fn load_game(&self) -> (r: bool)
        ensures
            r == self.spec_load_game(),
    {
        self.load_game
    }
}

} // verus!

use vstd::prelude::*;

verus! {

/// Start-up options of the game around this engine: whether to sync
/// presentation, a save file to load, the world seed, and the radius in
/// which chunks are kept generated.
pub struct Arguments {
    pub enable_vsync: bool,
    pub save_file: Option<String>,
    pub seed: Option<u32>,
    pub load_distance: usize,
}

impl Default for Arguments {
    /// No sync, no save file, a random seed, and the stock load radius.
    fn default() -> (r: Self)
        ensures
            r.enable_vsync == false,
            r.save_file is None,
            r.seed is None,
            r.load_distance == 16,
    {
        Arguments { enable_vsync: false, save_file: None, seed: None, load_distance: 16 }
    }
}

} // verus!

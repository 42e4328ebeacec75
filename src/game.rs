use vstd::prelude::*;

verus! {

/// One catalog entry. Fields other than `id` and the two image paths are
/// payload that the catalog stores without interpreting; an empty path
/// means that no image is set.
#[derive(Clone, Debug)]
pub struct Game {
    pub id: u64,
    pub name: String,
    pub launch_target: String,
    pub icon_path: String,
    pub background_path: String,
}

/// Mathematical model of a `Game`.
pub struct GameRecord {
    pub id: u64,
    pub name: Seq<char>,
    pub launch_target: Seq<char>,
    pub icon_path: Seq<char>,
    pub background_path: Seq<char>,
}

impl View for Game {
    type V = GameRecord;

    open spec fn view(&self) -> GameRecord {
        GameRecord {
            id: self.id,
            name: self.name@,
            launch_target: self.launch_target@,
            icon_path: self.icon_path@,
            background_path: self.background_path@,
        }
    }
}

/// The models of a sequence of games, in order.
pub open spec fn records(gs: Seq<Game>) -> Seq<GameRecord> {
    gs.map_values(|g: Game| g@)
}

} // verus!

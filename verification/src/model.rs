//! The document model: what the logic reads of one game-result file,
//! and the flat record rows derived from it.

use vstd::prelude::*;

verus! {

/// The default delimiter between output columns.
pub const DEFAULT_COLUMN_SEPARATOR: char = ',';

/// The default delimiter between the ids within one option-id cell.
pub const DEFAULT_OPTION_SEPARATOR: char = ';';

/// One unit owned by a player in a game document. `option_ids` and
/// `killed_count` are optional in the source; `id` is required there,
/// so a document that lacks it never becomes a `UnitEntry`.
pub struct UnitEntry {
    pub id: i32,
    pub option_ids: Option<Vec<i32>>,
    pub killed_count: Option<i32>,
}

/// One player of a game document. The rating is carried as its decimal
/// text; the logic only tests its presence and copies it through.
pub struct PlayerDoc {
    pub new_rating: Option<String>,
    pub units: Vec<UnitEntry>,
}

/// The root of one decoded game-result file.
pub struct GameDoc {
    pub players: Vec<PlayerDoc>,
}

/// One output row: a unit paired with its owner's rating.
pub struct UnitRecord {
    pub unit_id: i32,
    pub option_ids: String,
    pub killed_count: i32,
    pub player_rating: String,
}

/// The mathematical value of one output row.
pub struct RecordModel {
    pub unit_id: int,
    pub option_ids: Seq<char>,
    pub killed_count: int,
    pub player_rating: Seq<char>,
}

impl View for UnitRecord {
    type V = RecordModel;

    open spec fn view(&self) -> RecordModel {
        RecordModel {
            unit_id: self.unit_id as int,
            option_ids: self.option_ids@,
            killed_count: self.killed_count as int,
            player_rating: self.player_rating@,
        }
    }
}

/// The option ids a unit carries: an absent list counts as empty.
pub open spec fn unit_options(u: UnitEntry) -> Seq<i32> {
    match u.option_ids {
        Option::Some(v) => v@,
        Option::None => Seq::empty(),
    }
}

/// The kill count a unit reports: an absent count defaults to zero,
/// a present one passes through unchanged.
pub open spec fn unit_killed(u: UnitEntry) -> int {
    match u.killed_count {
        Option::Some(k) => k as int,
        Option::None => 0,
    }
}

} // verus!

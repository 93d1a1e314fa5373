//! Extraction of unit records from decoded game documents, and the
//! merge of per-file record batches into one collection.

use crate::model::{GameDoc, PlayerDoc, RecordModel, UnitEntry, UnitRecord, unit_killed,
    unit_options};
use crate::text::{ints_text, is_digit, render_option_ids};
use vstd::prelude::*;

verus! {

/// The sequence of record values a record list stands for.
pub open spec fn records_view(records: Seq<UnitRecord>) -> Seq<RecordModel> {
    records.map_values(|r: UnitRecord| r@)
}

/// The record value one unit yields under a given owner rating.
pub open spec fn unit_record_model(u: UnitEntry, rating: Seq<char>, sep: char) -> RecordModel {
    RecordModel {
        unit_id: u.id as int,
        option_ids: ints_text(unit_options(u), sep),
        killed_count: unit_killed(u),
        player_rating: rating,
    }
}

/// The records one player yields: one per unit if the player carries
/// a rating, none at all otherwise.
pub open spec fn player_records(p: PlayerDoc, sep: char) -> Seq<RecordModel> {
    match p.new_rating {
        Option::Some(r) => p.units@.map_values(|u: UnitEntry| unit_record_model(u, r@, sep)),
        Option::None => Seq::empty(),
    }
}

/// The records of a whole document: every player's records in
/// document order.
pub open spec fn doc_records(players: Seq<PlayerDoc>, sep: char) -> Seq<RecordModel>
    decreases players.len(),
{
    if players.len() == 0 {
        Seq::empty()
    } else {
        player_records(players[0], sep) + doc_records(players.drop_first(), sep)
    }
}

pub proof fn lemma_doc_records_take(players: Seq<PlayerDoc>, sep: char, i: int)
    requires
        0 <= i < players.len(),
    ensures
        doc_records(players.take(i + 1), sep) == doc_records(players.take(i), sep)
            + player_records(players[i], sep),
    decreases i,
{
    if i == 0 {
        assert(players.take(1) =~= seq![players[0]]);
        assert(players.take(1).drop_first() =~= Seq::<PlayerDoc>::empty());
        assert(players.take(0) =~= Seq::<PlayerDoc>::empty());
        assert(doc_records(players.take(1), sep) =~= doc_records(players.take(0), sep)
            + player_records(players[0], sep));
    } else {
        let tl = players.drop_first();
        lemma_doc_records_take(tl, sep, i - 1);
        assert(players.take(i + 1).drop_first() =~= tl.take(i));
        assert(players.take(i).drop_first() =~= tl.take(i - 1));
        assert(players.take(i + 1)[0] == players[0]);
        assert(players.take(i)[0] == players[0]);
        assert(tl[i - 1] == players[i]);
        let a = player_records(players[0], sep);
        let b = doc_records(tl.take(i - 1), sep);
        let c = player_records(players[i], sep);
        assert(doc_records(players.take(i + 1), sep) == a + (b + c));
        assert(doc_records(players.take(i), sep) == a + b);
        assert(a + (b + c) =~= (a + b) + c);
    }
}

/// The records of one rated player's unit list.
fn player_unit_records(units: &Vec<UnitEntry>, rating: &String, option_sep: char) -> (records:
    Vec<UnitRecord>)
    ensures
        records_view(records@) == units@.map_values(
            |u: UnitEntry| unit_record_model(u, rating@, option_sep),
        ),
{
    let mut records: Vec<UnitRecord> = Vec::new();
    let mut j: usize = 0;
    while j < units.len()
        invariant
            0 <= j <= units@.len(),
            records_view(records@) == units@.take(j as int).map_values(
                |u: UnitEntry| unit_record_model(u, rating@, option_sep),
            ),
        decreases units@.len() - j,
    {
        let u = &units[j];
        let option_ids = match &u.option_ids {
            Option::Some(ids) => render_option_ids(ids, option_sep),
            Option::None => {
                proof {
                    assert(crate::text::int_texts(Seq::<i32>::empty())
                        =~= Seq::<Seq<char>>::empty());
                }
                String::new()
            },
        };
        let killed_count = match u.killed_count {
            Option::Some(k) => k,
            Option::None => 0,
        };
        let ghost old_records = records@;
        records.push(
            UnitRecord {
                unit_id: u.id,
                option_ids,
                killed_count,
                player_rating: rating.clone(),
            },
        );
        proof {
            let m = |u: UnitEntry| unit_record_model(u, rating@, option_sep);
            assert(records_view(records@) =~= records_view(old_records).push(
                records@.last()@,
            ));
            assert(records@.last()@ == m(units@[j as int]));
            assert(units@.take(j as int + 1).map_values(m) =~= units@.take(j as int).map_values(
                m,
            ).push(m(units@[j as int])));
        }
        j += 1;
    }
    proof {
        assert(units@.take(units@.len() as int) =~= units@);
    }
    records
}

impl GameDoc {
    /// Extracts one record for each unit owned by a rated player, in
    /// document order; players without a rating contribute nothing.
    pub fn extract_records(&self, option_sep: char) -> (records: Vec<UnitRecord>)
        ensures
            records_view(records@) == doc_records(self.players@, option_sep),
    {
        let mut records: Vec<UnitRecord> = Vec::new();
        let mut i: usize = 0;
        while i < self.players.len()
            invariant
                0 <= i <= self.players@.len(),
                records_view(records@) == doc_records(self.players@.take(i as int), option_sep),
            decreases self.players@.len() - i,
        {
            let p = &self.players[i];
            proof {
                lemma_doc_records_take(self.players@, option_sep, i as int);
            }
            match &p.new_rating {
                Option::None => {
                    proof {
                        assert(player_records(self.players@[i as int], option_sep)
                            =~= Seq::<RecordModel>::empty());
                        assert(doc_records(self.players@.take(i as int + 1), option_sep)
                            =~= doc_records(self.players@.take(i as int), option_sep));
                    }
                },
                Option::Some(rating) => {
                    let mut batch = player_unit_records(&p.units, rating, option_sep);
                    let ghost old_records = records@;
                    records.append(&mut batch);
                    proof {
                        assert(records_view(records@) =~= records_view(old_records)
                            + player_records(self.players@[i as int], option_sep));
                    }
                },
            }
            i += 1;
        }
        proof {
            assert(self.players@.take(self.players@.len() as int) =~= self.players@);
        }
        records
    }
}

/// The records of one file's outcome: every failure while reading or
/// decoding a file is absorbed into `None` before this point, and a
/// skipped file contributes no records at all.
pub fn file_records(doc: Option<&GameDoc>, option_sep: char) -> (records: Vec<UnitRecord>)
    ensures
        records_view(records@) == match doc {
            Option::Some(d) => doc_records(d.players@, option_sep),
            Option::None => Seq::<RecordModel>::empty(),
        },
{
    match doc {
        Option::Some(d) => d.extract_records(option_sep),
        Option::None => {
            let records: Vec<UnitRecord> = Vec::new();
            proof {
                assert(records_view(records@) =~= Seq::<RecordModel>::empty());
            }
            records
        },
    }
}

/// How many units the rated players of a document own in all.
pub open spec fn rated_unit_count(players: Seq<PlayerDoc>) -> int
    decreases players.len(),
{
    if players.len() == 0 {
        0
    } else {
        (match players[0].new_rating {
            Option::Some(_) => players[0].units@.len() as int,
            Option::None => 0,
        }) + rated_unit_count(players.drop_first())
    }
}

/// A unit yields a record exactly when its owning player carries a
/// rating: a document yields as many records as its rated players
/// own units, and an unrated player's units yield none.
pub proof fn lemma_record_count(players: Seq<PlayerDoc>, sep: char)
    ensures
        doc_records(players, sep).len() == rated_unit_count(players),
    decreases players.len(),
{
    if players.len() > 0 {
        lemma_record_count(players.drop_first(), sep);
    }
}

/// The rating text a player carries; meaningful only for rated ones.
pub open spec fn rating_text(p: PlayerDoc) -> Seq<char> {
    match p.new_rating {
        Option::Some(r) => r@,
        Option::None => Seq::empty(),
    }
}

/// Whether a record value is the one some unit of some rated player
/// of the document yields.
pub open spec fn comes_from_rated(players: Seq<PlayerDoc>, sep: char, r: RecordModel) -> bool {
    exists|i: int, j: int|
        0 <= i < players.len() && 0 <= j < players[i].units@.len() && players[i].new_rating
            is Some && r == unit_record_model(
            #[trigger] players[i].units@[j],
            rating_text(players[i]),
            sep,
        )
}

proof fn lemma_comes_from_cons(players: Seq<PlayerDoc>, sep: char, r: RecordModel)
    requires
        players.len() > 0,
        comes_from_rated(players.drop_first(), sep, r),
    ensures
        comes_from_rated(players, sep, r),
{
    let tl = players.drop_first();
    let (i2, j2): (int, int) = choose|i2: int, j2: int|
        0 <= i2 < tl.len() && 0 <= j2 < tl[i2].units@.len() && tl[i2].new_rating is Some && r
            == unit_record_model(#[trigger] tl[i2].units@[j2], rating_text(tl[i2]), sep);
    assert(tl[i2] == players[i2 + 1]);
    assert(r == unit_record_model(players[i2 + 1].units@[j2], rating_text(players[i2 + 1]), sep));
}

/// A record is produced if and only if its owning player is rated:
/// every unit of a rated player yields its record, and every record
/// comes from some unit of some rated player.
pub proof fn lemma_record_iff_rated(players: Seq<PlayerDoc>, sep: char)
    ensures
        forall|i: int, j: int|
            0 <= i < players.len() && 0 <= j < players[i].units@.len()
                && players[i].new_rating is Some ==> doc_records(players, sep).contains(
                unit_record_model(#[trigger] players[i].units@[j], rating_text(players[i]), sep),
            ),
        forall|k: int|
            0 <= k < doc_records(players, sep).len() ==> comes_from_rated(
                players,
                sep,
                #[trigger] doc_records(players, sep)[k],
            ),
    decreases players.len(),
{
    if players.len() > 0 {
        let tl = players.drop_first();
        let pr = player_records(players[0], sep);
        let rest = doc_records(tl, sep);
        lemma_record_iff_rated(tl, sep);
        assert(doc_records(players, sep) == pr + rest);
        assert(forall|k: int| 0 <= k < rest.len() ==> (pr + rest)[pr.len() + k] == rest[k]);

        // every unit of a rated player yields its record
        assert forall|i: int, j: int|
            0 <= i < players.len() && 0 <= j < players[i].units@.len()
                && players[i].new_rating is Some implies doc_records(players, sep).contains(
            unit_record_model(#[trigger] players[i].units@[j], rating_text(players[i]), sep),
        ) by {
            let r = unit_record_model(players[i].units@[j], rating_text(players[i]), sep);
            if i == 0 {
                assert(pr[j] == r);
                assert(doc_records(players, sep)[j] == r);
                assert(doc_records(players, sep).contains(r));
            } else {
                assert(tl[i - 1] == players[i]);
                assert(rest.contains(unit_record_model(tl[i - 1].units@[j], rating_text(tl[i - 1]), sep)));
                let k = choose|k: int| 0 <= k < rest.len() && rest[k] == r;
                assert(doc_records(players, sep)[pr.len() + k] == r);
                assert(doc_records(players, sep).contains(r));
            }
        }

        // every record comes from a unit of a rated player
        assert forall|k: int| 0 <= k < doc_records(players, sep).len() implies comes_from_rated(
            players,
            sep,
            #[trigger] doc_records(players, sep)[k],
        ) by {
            if k < pr.len() {
                assert(players[0].new_rating is Some);
                assert(doc_records(players, sep)[k] == pr[k]);
                assert(pr[k] == unit_record_model(
                    players[0].units@[k],
                    rating_text(players[0]),
                    sep,
                ));
            } else {
                let k2 = k - pr.len();
                assert(doc_records(players, sep)[k] == rest[k2]);
                assert(comes_from_rated(tl, sep, rest[k2]));
                lemma_comes_from_cons(players, sep, rest[k2]);
            }
        }
    }
}

/// A record's kill count passes through from its unit, with absence
/// defaulting to zero: it is never negative unless some unit's own
/// count is negative.
pub proof fn lemma_killed_count_nonnegative(players: Seq<PlayerDoc>, sep: char)
    requires
        forall|i: int, j: int|
            0 <= i < players.len() && 0 <= j < players[i].units@.len() ==> unit_killed(
                #[trigger] players[i].units@[j],
            ) >= 0,
    ensures
        forall|k: int|
            0 <= k < doc_records(players, sep).len() ==> #[trigger] doc_records(
                players,
                sep,
            )[k].killed_count >= 0,
    decreases players.len(),
{
    if players.len() > 0 {
        let tl = players.drop_first();
        assert(forall|i: int, j: int|
            0 <= i < tl.len() && 0 <= j < tl[i].units@.len() ==> unit_killed(
                #[trigger] tl[i].units@[j],
            ) >= 0) by {
            assert(forall|i: int| 0 <= i < tl.len() ==> tl[i] == players[i + 1]);
        }
        lemma_killed_count_nonnegative(tl, sep);
        let pr = player_records(players[0], sep);
        assert(forall|k: int| 0 <= k < pr.len() ==> #[trigger] pr[k].killed_count >= 0) by {
            assert(forall|j: int|
                0 <= j < players[0].units@.len() ==> unit_killed(
                    #[trigger] players[0].units@[j],
                ) >= 0);
        }
        assert(forall|k: int|
            0 <= k < doc_records(players, sep).len() ==> #[trigger] doc_records(
                players,
                sep,
            )[k].killed_count >= 0) by {
            assert(doc_records(players, sep) == pr + doc_records(tl, sep));
            assert(forall|k: int|
                0 <= k < doc_records(players, sep).len() ==> doc_records(players, sep)[k] == (
                if k < pr.len() {
                    pr[k]
                } else {
                    doc_records(tl, sep)[k - pr.len()]
                }));
        }
    }
}

/// As long as the option separator is not itself a newline, no
/// option-id cell an extraction produces contains one: the cells hold
/// only digits, minus signs and separators.
pub proof fn lemma_option_cells_newline_free(players: Seq<PlayerDoc>, sep: char)
    requires
        sep != '\n',
    ensures
        forall|k: int, j: int|
            0 <= k < doc_records(players, sep).len() && 0 <= j < doc_records(
                players,
                sep,
            )[k].option_ids.len() ==> #[trigger] doc_records(players, sep)[k].option_ids[j] != '\n',
{
    lemma_record_iff_rated(players, sep);
    assert forall|k: int, j: int|
        0 <= k < doc_records(players, sep).len() && 0 <= j < doc_records(
            players,
            sep,
        )[k].option_ids.len() implies #[trigger] doc_records(players, sep)[k].option_ids[j]
        != '\n' by {
        let r = doc_records(players, sep)[k];
        assert(comes_from_rated(players, sep, r));
        let (i2, j2): (int, int) = choose|i2: int, j2: int|
            0 <= i2 < players.len() && 0 <= j2 < players[i2].units@.len()
                && players[i2].new_rating is Some && r == unit_record_model(
                #[trigger] players[i2].units@[j2],
                rating_text(players[i2]),
                sep,
            );
        let u = players[i2].units@[j2];
        assert(r.option_ids == ints_text(unit_options(u), sep));
        crate::text::lemma_ints_text_chars(unit_options(u), sep);
        assert(is_digit(r.option_ids[j]) || r.option_ids[j] == '-' || r.option_ids[j] == sep);
    }
}

/// The record values of a sequence of per-file batches.
pub open spec fn batch_views(batches: Seq<Vec<UnitRecord>>) -> Seq<Seq<RecordModel>> {
    batches.map_values(|b: Vec<UnitRecord>| records_view(b@))
}

/// The sum of the batch lengths.
pub open spec fn batch_len_sum(batches: Seq<Seq<RecordModel>>) -> int
    decreases batches.len(),
{
    if batches.len() == 0 {
        0
    } else {
        batches[0].len() + batch_len_sum(batches.drop_first())
    }
}

/// Merging keeps every record exactly once, whatever the partition
/// into batches was: the merged length is the sum of batch lengths.
pub proof fn lemma_flatten_count(batches: Seq<Seq<RecordModel>>)
    ensures
        batches.flatten().len() == batch_len_sum(batches),
    decreases batches.len(),
{
    if batches.len() > 0 {
        lemma_flatten_count(batches.drop_first());
    }
}

/// Joins per-file record batches into one flat collection, in batch
/// order: the single join point after the per-file work.
pub fn merge_batches(batches: Vec<Vec<UnitRecord>>) -> (all: Vec<UnitRecord>)
    ensures
        records_view(all@) == batch_views(batches@).flatten(),
{
    let ghost orig = batches@;
    let mut batches = batches;
    let mut all: Vec<UnitRecord> = Vec::new();
    proof {
        assert(orig.take(orig.len() as int) =~= orig);
        assert(batch_views(orig).skip(orig.len() as int) =~= Seq::<Seq<RecordModel>>::empty());
    }
    while batches.len() > 0
        invariant
            batches@.len() <= orig.len(),
            batches@ == orig.take(batches@.len() as int),
            records_view(all@) == batch_views(orig).skip(batches@.len() as int).flatten(),
        decreases batches@.len(),
    {
        let ghost k = batches@.len() as int;
        let mut batch = batches.pop().unwrap();
        let ghost old_all = all@;
        batch.append(&mut all);
        all = batch;
        proof {
            assert(batches@ =~= orig.take(k - 1));
            let views = batch_views(orig);
            assert(views.skip(k - 1).drop_first() =~= views.skip(k));
            assert(views.skip(k - 1)[0] == views[k - 1]);
            assert(views.skip(k - 1).flatten() == views[k - 1] + views.skip(k).flatten());
            assert(orig.take(k)[k - 1] == orig[k - 1]);
            assert(records_view(all@) =~= views[k - 1] + records_view(old_all));
        }
    }
    proof {
        assert(batch_views(orig).skip(0) =~= batch_views(orig));
    }
    all
}

} // verus!

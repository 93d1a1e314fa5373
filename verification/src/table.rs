//! Rendering of the collected records as one delimited text table
//! with a fixed header and fixed column order.
//!
//! No cell is quoted or escaped: if the option separator were ever
//! configured equal to the column separator, the output would be
//! ambiguous. That constraint is inherited, not fixed here.

use crate::extract::{comes_from_rated, doc_records, lemma_option_cells_newline_free,
    lemma_record_iff_rated, rating_text, unit_record_model};
use crate::model::{PlayerDoc, RecordModel, UnitRecord};
use crate::text::{char_to_string, i32_to_string, int_text, is_digit, lemma_int_text_shape};
use vstd::prelude::*;
use vstd::string::*;

verus! {

/// The fixed header line, without its newline.
pub open spec fn header_text(col_sep: char) -> Seq<char> {
    "unit_id"@ + seq![col_sep] + "option_ids"@ + seq![col_sep] + "killed_count"@ + seq![col_sep]
        + "player_rating"@
}

/// One record's line, without its newline: the four cells in fixed
/// order, joined by the column separator.
pub open spec fn record_line(r: RecordModel, col_sep: char) -> Seq<char> {
    int_text(r.unit_id) + seq![col_sep] + r.option_ids + seq![col_sep] + int_text(r.killed_count)
        + seq![col_sep] + r.player_rating
}

/// The lines after the header: one newline-terminated line per record.
pub open spec fn body_text(rs: Seq<RecordModel>, col_sep: char) -> Seq<char>
    decreases rs.len(),
{
    if rs.len() == 0 {
        Seq::empty()
    } else {
        body_text(rs.drop_last(), col_sep) + record_line(rs.last(), col_sep) + seq!['\n']
    }
}

/// The whole table: the header line, then one line per record, each
/// line newline-terminated.
pub open spec fn table_text(rs: Seq<RecordModel>, col_sep: char) -> Seq<char> {
    header_text(col_sep) + seq!['\n'] + body_text(rs, col_sep)
}

/// Renders the whole table as one string, ready to be written out.
pub fn render_table(records: &Vec<UnitRecord>, col_sep: char) -> (out: String)
    ensures
        out@ == table_text(crate::extract::records_view(records@), col_sep),
{
    let sep_s = char_to_string(col_sep);
    let mut out = String::new();
    out.append("unit_id");
    out.append(sep_s.as_str());
    out.append("option_ids");
    out.append(sep_s.as_str());
    out.append("killed_count");
    out.append(sep_s.as_str());
    out.append("player_rating");
    out.append("\n");
    proof {
        reveal_strlit("\n");
        assert("\n"@ =~= seq!['\n']);
        assert(out@ =~= header_text(col_sep) + seq!['\n']);
    }
    let ghost rs = crate::extract::records_view(records@);
    let mut i: usize = 0;
    while i < records.len()
        invariant
            0 <= i <= records@.len(),
            rs == crate::extract::records_view(records@),
            rs.len() == records@.len(),
            sep_s@ == seq![col_sep],
            out@ == header_text(col_sep) + seq!['\n'] + body_text(rs.take(i as int), col_sep),
        decreases records@.len() - i,
    {
        let r = &records[i];
        let unit_id_text = i32_to_string(r.unit_id);
        let killed_text = i32_to_string(r.killed_count);
        out.append(unit_id_text.as_str());
        out.append(sep_s.as_str());
        out.append(r.option_ids.as_str());
        out.append(sep_s.as_str());
        out.append(killed_text.as_str());
        out.append(sep_s.as_str());
        out.append(r.player_rating.as_str());
        out.append("\n");
        proof {
            reveal_strlit("\n");
            assert("\n"@ =~= seq!['\n']);
            assert(rs.take(i as int + 1).drop_last() =~= rs.take(i as int));
            assert(rs.take(i as int + 1).last() == rs[i as int]);
            assert(rs[i as int] == records@[i as int]@);
            assert(body_text(rs.take(i as int + 1), col_sep) == body_text(rs.take(i as int), col_sep)
                + record_line(rs[i as int], col_sep) + seq!['\n']);
            assert(out@ =~= header_text(col_sep) + seq!['\n'] + body_text(
                rs.take(i as int + 1),
                col_sep,
            ));
        }
        i += 1;
    }
    proof {
        assert(rs.take(rs.len() as int) =~= rs);
    }
    out
}

/// How often a character occurs in a text.
pub open spec fn count_char(s: Seq<char>, c: char) -> int
    decreases s.len(),
{
    if s.len() == 0 {
        0
    } else {
        count_char(s.drop_last(), c) + if s.last() == c {
            1int
        } else {
            0int
        }
    }
}

pub proof fn lemma_count_char_concat(a: Seq<char>, b: Seq<char>, c: char)
    ensures
        count_char(a + b, c) == count_char(a, c) + count_char(b, c),
    decreases b.len(),
{
    if b.len() == 0 {
        assert(a + b =~= a);
    } else {
        lemma_count_char_concat(a, b.drop_last(), c);
        assert((a + b).drop_last() =~= a + b.drop_last());
        assert((a + b).last() == b.last());
    }
}

pub proof fn lemma_count_char_absent(s: Seq<char>, c: char)
    requires
        forall|i: int| 0 <= i < s.len() ==> s[i] != c,
    ensures
        count_char(s, c) == 0,
    decreases s.len(),
{
    if s.len() > 0 {
        assert(forall|i: int| 0 <= i < s.drop_last().len() ==> s.drop_last()[i] == s[i]);
        lemma_count_char_absent(s.drop_last(), c);
    }
}

proof fn lemma_int_text_no_newline(n: int)
    ensures
        count_char(int_text(n), '\n') == 0,
{
    lemma_int_text_shape(n);
    assert forall|i: int| 0 <= i < int_text(n).len() implies int_text(n)[i] != '\n' by {
        if n < 0 && i == 0 {
            assert(int_text(n)[0] == '-');
        } else {
            assert(is_digit(int_text(n)[i]));
        }
    }
    lemma_count_char_absent(int_text(n), '\n');
}

proof fn lemma_header_no_newline(col_sep: char)
    requires
        col_sep != '\n',
    ensures
        count_char(header_text(col_sep), '\n') == 0,
{
    reveal_strlit("unit_id");
    reveal_strlit("option_ids");
    reveal_strlit("killed_count");
    reveal_strlit("player_rating");
    assert forall|i: int| 0 <= i < "unit_id"@.len() implies "unit_id"@[i] != '\n' by {}
    assert forall|i: int| 0 <= i < "option_ids"@.len() implies "option_ids"@[i] != '\n' by {}
    assert forall|i: int| 0 <= i < "killed_count"@.len() implies "killed_count"@[i] != '\n' by {}
    assert forall|i: int| 0 <= i < "player_rating"@.len() implies "player_rating"@[i] != '\n' by {}
    lemma_count_char_absent("unit_id"@, '\n');
    lemma_count_char_absent("option_ids"@, '\n');
    lemma_count_char_absent("killed_count"@, '\n');
    lemma_count_char_absent("player_rating"@, '\n');
    lemma_count_char_absent(seq![col_sep], '\n');
    lemma_count_char_concat("unit_id"@, seq![col_sep], '\n');
    lemma_count_char_concat("unit_id"@ + seq![col_sep], "option_ids"@, '\n');
    lemma_count_char_concat("unit_id"@ + seq![col_sep] + "option_ids"@, seq![col_sep], '\n');
    lemma_count_char_concat(
        "unit_id"@ + seq![col_sep] + "option_ids"@ + seq![col_sep],
        "killed_count"@,
        '\n',
    );
    lemma_count_char_concat(
        "unit_id"@ + seq![col_sep] + "option_ids"@ + seq![col_sep] + "killed_count"@,
        seq![col_sep],
        '\n',
    );
    lemma_count_char_concat(
        "unit_id"@ + seq![col_sep] + "option_ids"@ + seq![col_sep] + "killed_count"@
            + seq![col_sep],
        "player_rating"@,
        '\n',
    );
}

proof fn lemma_record_line_no_newline(r: RecordModel, col_sep: char)
    requires
        col_sep != '\n',
        forall|j: int| 0 <= j < r.option_ids.len() ==> r.option_ids[j] != '\n',
        forall|j: int| 0 <= j < r.player_rating.len() ==> r.player_rating[j] != '\n',
    ensures
        count_char(record_line(r, col_sep), '\n') == 0,
{
    lemma_int_text_no_newline(r.unit_id);
    lemma_int_text_no_newline(r.killed_count);
    lemma_count_char_absent(r.option_ids, '\n');
    lemma_count_char_absent(r.player_rating, '\n');
    lemma_count_char_absent(seq![col_sep], '\n');
    lemma_count_char_concat(int_text(r.unit_id), seq![col_sep], '\n');
    lemma_count_char_concat(int_text(r.unit_id) + seq![col_sep], r.option_ids, '\n');
    lemma_count_char_concat(
        int_text(r.unit_id) + seq![col_sep] + r.option_ids,
        seq![col_sep],
        '\n',
    );
    lemma_count_char_concat(
        int_text(r.unit_id) + seq![col_sep] + r.option_ids + seq![col_sep],
        int_text(r.killed_count),
        '\n',
    );
    lemma_count_char_concat(
        int_text(r.unit_id) + seq![col_sep] + r.option_ids + seq![col_sep] + int_text(
            r.killed_count,
        ),
        seq![col_sep],
        '\n',
    );
    lemma_count_char_concat(
        int_text(r.unit_id) + seq![col_sep] + r.option_ids + seq![col_sep] + int_text(
            r.killed_count,
        ) + seq![col_sep],
        r.player_rating,
        '\n',
    );
}

proof fn lemma_body_line_count(rs: Seq<RecordModel>, col_sep: char)
    requires
        col_sep != '\n',
        forall|i: int, j: int|
            0 <= i < rs.len() && 0 <= j < rs[i].option_ids.len() ==> #[trigger] rs[i].option_ids[j]
                != '\n',
        forall|i: int, j: int|
            0 <= i < rs.len() && 0 <= j < rs[i].player_rating.len()
                ==> #[trigger] rs[i].player_rating[j] != '\n',
    ensures
        count_char(body_text(rs, col_sep), '\n') == rs.len(),
    decreases rs.len(),
{
    if rs.len() > 0 {
        let r0 = rs.drop_last();
        assert(forall|i: int| 0 <= i < r0.len() ==> r0[i] == rs[i]);
        lemma_body_line_count(r0, col_sep);
        lemma_record_line_no_newline(rs.last(), col_sep);
        lemma_count_char_concat(body_text(r0, col_sep), record_line(rs.last(), col_sep), '\n');
        lemma_count_char_concat(
            body_text(r0, col_sep) + record_line(rs.last(), col_sep),
            seq!['\n'],
            '\n',
        );
        assert(count_char(Seq::<char>::empty(), '\n') == 0);
        assert(count_char(Seq::<char>::empty(), '\n') == 0);
    assert(seq!['\n'].drop_last() =~= Seq::<char>::empty());
    assert(seq!['\n'].last() == '\n');
        assert(seq!['\n'].last() == '\n');
        assert(count_char(seq!['\n'], '\n') == 1);
    }
}

/// One line per record: the rendered table holds exactly one newline
/// per record beyond the header's own, so its non-header line count
/// equals the record count. This asks only that no cell smuggles a
/// newline in: the separator is not a newline and neither the
/// option-id cells nor the rating cells contain one.
pub proof fn lemma_table_line_count(rs: Seq<RecordModel>, col_sep: char)
    requires
        col_sep != '\n',
        forall|i: int, j: int|
            0 <= i < rs.len() && 0 <= j < rs[i].option_ids.len() ==> #[trigger] rs[i].option_ids[j]
                != '\n',
        forall|i: int, j: int|
            0 <= i < rs.len() && 0 <= j < rs[i].player_rating.len()
                ==> #[trigger] rs[i].player_rating[j] != '\n',
    ensures
        count_char(table_text(rs, col_sep), '\n') == rs.len() + 1,
{
    lemma_header_no_newline(col_sep);
    lemma_body_line_count(rs, col_sep);
    lemma_count_char_concat(header_text(col_sep), seq!['\n'], '\n');
    lemma_count_char_concat(header_text(col_sep) + seq!['\n'], body_text(rs, col_sep), '\n');
    assert(count_char(Seq::<char>::empty(), '\n') == 0);
    assert(seq!['\n'].drop_last() =~= Seq::<char>::empty());
    assert(seq!['\n'].last() == '\n');
    assert(count_char(seq!['\n'], '\n') == 1);
}

/// The line-count law applied to a whole extraction: with separators
/// other than newline and newline-free rating texts, the rendered
/// table of a document's records holds exactly one line per record
/// beyond the header, however many records there are.
pub proof fn lemma_extracted_table_line_count(
    players: Seq<PlayerDoc>,
    col_sep: char,
    option_sep: char,
)
    requires
        col_sep != '\n',
        option_sep != '\n',
        forall|i: int, j: int|
            0 <= i < players.len() && 0 <= j < rating_text(players[i]).len()
                ==> #[trigger] rating_text(players[i])[j] != '\n',
    ensures
        count_char(table_text(doc_records(players, option_sep), col_sep), '\n') == doc_records(
            players,
            option_sep,
        ).len() + 1,
{
    let rs = doc_records(players, option_sep);
    lemma_option_cells_newline_free(players, option_sep);
    lemma_record_iff_rated(players, option_sep);
    assert forall|k: int, j: int|
        0 <= k < rs.len() && 0 <= j < rs[k].player_rating.len() implies #[trigger] rs[
            k
        ].player_rating[j] != '\n' by {
        let r = rs[k];
        assert(comes_from_rated(players, option_sep, r));
        let (i2, j2): (int, int) = choose|i2: int, j2: int|
            0 <= i2 < players.len() && 0 <= j2 < players[i2].units@.len()
                && players[i2].new_rating is Some && r == unit_record_model(
                #[trigger] players[i2].units@[j2],
                rating_text(players[i2]),
                option_sep,
            );
        assert(r.player_rating == rating_text(players[i2]));
    }
    lemma_table_line_count(rs, col_sep);
}

} // verus!

//! Decimal rendering of integers and separator-joined integer lists,
//! with the splitting and parsing that undo them.

use vstd::prelude::*;
use vstd::string::*;

verus! {

/// One decimal digit as a character.
pub open spec fn digit_char(d: int) -> char
    recommends
        0 <= d < 10,
{
    if d == 0 {
        '0'
    } else if d == 1 {
        '1'
    } else if d == 2 {
        '2'
    } else if d == 3 {
        '3'
    } else if d == 4 {
        '4'
    } else if d == 5 {
        '5'
    } else if d == 6 {
        '6'
    } else if d == 7 {
        '7'
    } else if d == 8 {
        '8'
    } else {
        '9'
    }
}

pub open spec fn is_digit(c: char) -> bool {
    '0' <= c && c <= '9'
}

/// Decimal text of a natural number: no sign, no leading zero.
pub open spec fn nat_text(n: nat) -> Seq<char>
    decreases n,
{
    if n < 10 {
        seq![digit_char(n as int)]
    } else {
        nat_text(n / 10) + seq![digit_char((n % 10) as int)]
    }
}

/// Decimal text of an integer: a leading `-` for negative values.
pub open spec fn int_text(n: int) -> Seq<char> {
    if n < 0 {
        seq!['-'] + nat_text((-n) as nat)
    } else {
        nat_text(n as nat)
    }
}

fn digit_str(d: u64) -> (s: &'static str)
    requires
        d < 10,
    ensures
        s@ == seq![digit_char(d as int)],
{
    proof {
        reveal_strlit("0");
        reveal_strlit("1");
        reveal_strlit("2");
        reveal_strlit("3");
        reveal_strlit("4");
        reveal_strlit("5");
        reveal_strlit("6");
        reveal_strlit("7");
        reveal_strlit("8");
        reveal_strlit("9");
    }
    let s = if d == 0 {
        "0"
    } else if d == 1 {
        "1"
    } else if d == 2 {
        "2"
    } else if d == 3 {
        "3"
    } else if d == 4 {
        "4"
    } else if d == 5 {
        "5"
    } else if d == 6 {
        "6"
    } else if d == 7 {
        "7"
    } else if d == 8 {
        "8"
    } else {
        "9"
    };
    proof {
        assert(s@ =~= seq![digit_char(d as int)]);
    }
    s
}

/// Relies on char's `ToString`: the returned string holds exactly the
/// one given character.
#[verifier::external_body]
pub(crate) fn char_to_string(c: char) -> (s: String)
    ensures
        s@ == seq![c],
{
    c.to_string()
}

pub fn u64_to_string(n: u64) -> (s: String)
    ensures
        s@ == nat_text(n as nat),
    decreases n,
{
    if n < 10 {
        String::from_str(digit_str(n))
    } else {
        let mut s = u64_to_string(n / 10);
        s.append(digit_str(n % 10));
        s
    }
}

/// The given texts joined by the separator: no leading or trailing
/// separator, and no separator at all around a single text.
pub open spec fn join_texts(ts: Seq<Seq<char>>, sep: char) -> Seq<char>
    decreases ts.len(),
{
    if ts.len() == 0 {
        Seq::empty()
    } else if ts.len() == 1 {
        ts[0]
    } else {
        ts[0] + seq![sep] + join_texts(ts.drop_first(), sep)
    }
}

/// The decimal texts of a sequence of integers.
pub open spec fn int_texts(ids: Seq<i32>) -> Seq<Seq<char>> {
    ids.map_values(|n: i32| int_text(n as int))
}

/// The rendering of an option-id list: decimal texts joined by the
/// separator; the empty list renders as the empty text.
pub open spec fn ints_text(ids: Seq<i32>, sep: char) -> Seq<char> {
    join_texts(int_texts(ids), sep)
}

pub proof fn lemma_join_push(ts: Seq<Seq<char>>, sep: char, t: Seq<char>)
    ensures
        ts.len() == 0 ==> join_texts(ts.push(t), sep) == t,
        ts.len() > 0 ==> join_texts(ts.push(t), sep) == join_texts(ts, sep) + seq![sep] + t,
    decreases ts.len(),
{
    if ts.len() == 0 {
        assert(join_texts(ts.push(t), sep) == ts.push(t)[0]);
        assert(ts.push(t)[0] == t);
    } else if ts.len() == 1 {
        assert(ts.push(t).drop_first() =~= seq![t]);
        assert(join_texts(seq![t], sep) == t);
        assert(join_texts(ts, sep) == ts[0]);
    } else {
        assert(ts.push(t).drop_first() =~= ts.drop_first().push(t));
        lemma_join_push(ts.drop_first(), sep, t);
        assert(join_texts(ts.push(t), sep) == ts[0] + seq![sep] + join_texts(
            ts.drop_first().push(t),
            sep,
        ));
        assert((ts[0] + seq![sep] + (join_texts(ts.drop_first(), sep) + seq![sep] + t)) =~= (ts[0]
            + seq![sep] + join_texts(ts.drop_first(), sep)) + seq![sep] + t);
    }
}

pub fn i32_to_string(n: i32) -> (s: String)
    ensures
        s@ == int_text(n as int),
{
    if n < 0 {
        let m: u64 = (-(n as i64)) as u64;
        let mut s = String::from_str("-");
        proof {
            reveal_strlit("-");
            assert(s@ =~= seq!['-']);
        }
        let t = u64_to_string(m);
        s.append(t.as_str());
        proof {
            assert(s@ =~= int_text(n as int));
        }
        s
    } else {
        u64_to_string(n as u64)
    }
}

proof fn lemma_join_chars(ts: Seq<Seq<char>>, sep: char)
    requires
        forall|i: int, j: int|
            0 <= i < ts.len() && 0 <= j < ts[i].len() ==> is_digit(#[trigger] ts[i][j]) || ts[i][j]
                == '-',
    ensures
        forall|k: int|
            0 <= k < join_texts(ts, sep).len() ==> is_digit(#[trigger] join_texts(ts, sep)[k])
                || join_texts(ts, sep)[k] == '-' || join_texts(ts, sep)[k] == sep,
    decreases ts.len(),
{
    if ts.len() <= 1 {
    } else {
        let tl = ts.drop_first();
        assert(forall|i: int, j: int|
            0 <= i < tl.len() && 0 <= j < tl[i].len() ==> #[trigger] tl[i][j] == ts[i + 1][j]);
        lemma_join_chars(tl, sep);
        let s = join_texts(ts, sep);
        assert forall|k: int| 0 <= k < s.len() implies is_digit(#[trigger] s[k]) || s[k] == '-'
            || s[k] == sep by {
            let head = ts[0] + seq![sep];
            assert(s == ts[0] + seq![sep] + join_texts(tl, sep));
            if k < ts[0].len() {
                assert(s[k] == ts[0][k]);
            } else if k == ts[0].len() {
                assert(s[k] == sep);
            } else {
                assert(s[k] == join_texts(tl, sep)[k - head.len()]);
            }
        }
    }
}

/// Every character of a rendered option-id cell is a decimal digit,
/// a minus sign, or the separator itself.
pub proof fn lemma_ints_text_chars(ids: Seq<i32>, sep: char)
    ensures
        forall|k: int|
            0 <= k < ints_text(ids, sep).len() ==> is_digit(#[trigger] ints_text(ids, sep)[k])
                || ints_text(ids, sep)[k] == '-' || ints_text(ids, sep)[k] == sep,
{
    let ts = int_texts(ids);
    assert forall|i: int, j: int|
        0 <= i < ts.len() && 0 <= j < ts[i].len() implies is_digit(#[trigger] ts[i][j]) || ts[i][j]
        == '-' by {
        lemma_int_text_shape(ids[i] as int);
        assert(ts[i] == int_text(ids[i] as int));
    }
    lemma_join_chars(ts, sep);
}

/// The pieces of a text split at every occurrence of the separator.
/// The empty text splits into no pieces at all; any other text with
/// `k` separators splits into `k + 1` pieces, empty ones included.
pub open spec fn split_text(s: Seq<char>, sep: char) -> Seq<Seq<char>>
    decreases s.len(),
{
    if s.len() == 0 {
        Seq::empty()
    } else {
        let c = s.last();
        let r = split_text(s.drop_last(), sep);
        let rr = if r.len() == 0 {
            seq![Seq::<char>::empty()]
        } else {
            r
        };
        if c == sep {
            rr.push(Seq::empty())
        } else {
            rr.update(rr.len() - 1, rr.last().push(c))
        }
    }
}

/// The numeric value of one digit character; anything else counts -1.
pub open spec fn digit_val(c: char) -> int {
    if c == '0' {
        0
    } else if c == '1' {
        1
    } else if c == '2' {
        2
    } else if c == '3' {
        3
    } else if c == '4' {
        4
    } else if c == '5' {
        5
    } else if c == '6' {
        6
    } else if c == '7' {
        7
    } else if c == '8' {
        8
    } else if c == '9' {
        9
    } else {
        -1
    }
}

/// The value of a digit string read as a decimal numeral.
pub open spec fn digits_val(s: Seq<char>) -> int
    decreases s.len(),
{
    if s.len() == 0 {
        0
    } else {
        digits_val(s.drop_last()) * 10 + digit_val(s.last())
    }
}

/// The integer a decimal text denotes: an optional leading `-`, then
/// digits. Meaningful only on such texts.
pub open spec fn int_val(s: Seq<char>) -> int {
    if s.len() > 0 && s[0] == '-' {
        -digits_val(s.drop_first())
    } else {
        digits_val(s)
    }
}

pub proof fn lemma_nat_text_digits(n: nat)
    ensures
        nat_text(n).len() >= 1,
        forall|i: int| 0 <= i < nat_text(n).len() ==> is_digit(#[trigger] nat_text(n)[i]),
    decreases n,
{
    if n >= 10 {
        lemma_nat_text_digits(n / 10);
    }
}

pub proof fn lemma_int_text_shape(n: int)
    ensures
        int_text(n).len() >= 1,
        n >= 0 ==> forall|i: int| 0 <= i < int_text(n).len() ==> is_digit(#[trigger] int_text(n)[i]),
        n < 0 ==> int_text(n)[0] == '-' && int_text(n).len() >= 2,
        n < 0 ==> forall|i: int| 1 <= i < int_text(n).len() ==> is_digit(#[trigger] int_text(n)[i]),
{
    if n < 0 {
        lemma_nat_text_digits((-n) as nat);
    } else {
        lemma_nat_text_digits(n as nat);
    }
}

/// The decimal numeral of a natural number reads back as that number.
pub proof fn lemma_digits_val_nat_text(n: nat)
    ensures
        digits_val(nat_text(n)) == n,
    decreases n,
{
    if n < 10 {
        assert(nat_text(n) =~= seq![digit_char(n as int)]);
        assert(nat_text(n).drop_last() =~= Seq::<char>::empty());
        assert(digits_val(Seq::<char>::empty()) == 0);
        assert(nat_text(n).last() == digit_char(n as int));
        assert(digit_val(digit_char(n as int)) == n);
        assert(digits_val(nat_text(n)) == 0 * 10 + digit_val(digit_char(n as int)));
    } else {
        lemma_digits_val_nat_text(n / 10);
        assert(nat_text(n).drop_last() =~= nat_text(n / 10));
        assert(nat_text(n).last() == digit_char((n % 10) as int));
        assert(digit_val(digit_char((n % 10) as int)) == n % 10);
        assert(digits_val(nat_text(n)) == digits_val(nat_text(n / 10)) * 10 + digit_val(
            digit_char((n % 10) as int),
        ));
        assert((n / 10) * 10 + n % 10 == n);
    }
}

/// The decimal text of an integer reads back as that integer.
pub proof fn lemma_int_val_int_text(n: int)
    ensures
        int_val(int_text(n)) == n,
{
    lemma_int_text_shape(n);
    if n < 0 {
        assert(int_text(n).drop_first() =~= nat_text((-n) as nat));
        lemma_digits_val_nat_text((-n) as nat);
    } else {
        lemma_nat_text_digits(n as nat);
        assert(int_text(n)[0] != '-');
        lemma_digits_val_nat_text(n as nat);
    }
}

/// A nonempty separator-free text splits into just itself.
proof fn lemma_split_single(t: Seq<char>, sep: char)
    requires
        t.len() > 0,
        forall|i: int| 0 <= i < t.len() ==> t[i] != sep,
    ensures
        split_text(t, sep) == seq![t],
    decreases t.len(),
{
    let t0 = t.drop_last();
    assert(t.last() == t[t.len() - 1]);
    assert(t.last() != sep);
    if t0.len() == 0 {
        assert(split_text(t0, sep) == Seq::<Seq<char>>::empty());
        assert(Seq::<char>::empty().push(t.last()) =~= t);
        assert(seq![Seq::<char>::empty()].update(0, Seq::<char>::empty().push(t.last())) =~= seq![
            t,
        ]);
        assert(split_text(t, sep) =~= seq![t]);
    } else {
        assert(forall|i: int| 0 <= i < t0.len() ==> t0[i] == t[i] && t0[i] != sep);
        lemma_split_single(t0, sep);
        assert(seq![t0].update(0, t0.push(t.last())) =~= seq![t0.push(t.last())]);
        assert(t0.push(t.last()) =~= t);
    }
}

/// Splitting never yields zero pieces on a nonempty text.
proof fn lemma_split_len(s: Seq<char>, sep: char)
    requires
        s.len() > 0,
    ensures
        split_text(s, sep).len() >= 1,
{
}

/// Appending separator-free text extends the last piece of a split.
proof fn lemma_split_append(s: Seq<char>, t: Seq<char>, sep: char)
    requires
        s.len() > 0,
        forall|i: int| 0 <= i < t.len() ==> t[i] != sep,
    ensures
        split_text(s + t, sep) == split_text(s, sep).update(
            split_text(s, sep).len() - 1,
            split_text(s, sep).last() + t,
        ),
    decreases t.len(),
{
    let r = split_text(s, sep);
    lemma_split_len(s, sep);
    if t.len() == 0 {
        assert(s + t =~= s);
        assert(r.update(r.len() - 1, r.last() + t) =~= r);
    } else {
        let t0 = t.drop_last();
        let c = t.last();
        assert(forall|i: int| 0 <= i < t0.len() ==> t0[i] == t[i] && t0[i] != sep);
        lemma_split_append(s, t0, sep);
        let r0 = split_text(s + t0, sep);
        assert(s + t =~= (s + t0).push(c));
        assert((s + t).drop_last() =~= s + t0);
        assert((s + t).last() == c);
        assert(r0.len() >= 1);
        assert(c != sep);
        assert(split_text(s + t, sep) == r0.update(r0.len() - 1, r0.last().push(c)));
        assert(r0 == r.update(r.len() - 1, r.last() + t0));
        assert(r0.len() == r.len());
        assert(r0.last() == r.last() + t0);
        assert(r0.last().push(c) =~= r.last() + t);
        assert(r0.update(r0.len() - 1, r0.last().push(c)) =~= r.update(r.len() - 1, r.last() + t));
    }
}

/// Joining nonempty separator-free texts and splitting the result
/// yields the original texts back.
pub proof fn lemma_split_join(ts: Seq<Seq<char>>, sep: char)
    requires
        forall|i: int, j: int|
            0 <= i < ts.len() && 0 <= j < ts[i].len() ==> #[trigger] ts[i][j] != sep,
        forall|i: int| 0 <= i < ts.len() ==> #[trigger] ts[i].len() > 0,
    ensures
        split_text(join_texts(ts, sep), sep) == ts,
    decreases ts.len(),
{
    if ts.len() == 0 {
        assert(split_text(join_texts(ts, sep), sep) =~= ts);
    } else {
        let ts0 = ts.drop_last();
        let t = ts.last();
        assert(forall|i: int, j: int|
            0 <= i < ts0.len() && 0 <= j < ts0[i].len() ==> #[trigger] ts0[i][j] != sep);
        assert(forall|i: int| 0 <= i < ts0.len() ==> #[trigger] ts0[i].len() > 0);
        assert(ts0.push(t) =~= ts);
        lemma_join_push(ts0, sep, t);
        if ts0.len() == 0 {
            assert(join_texts(ts, sep) == t);
            lemma_split_single(t, sep);
            assert(seq![t] =~= ts);
        } else {
            lemma_split_join(ts0, sep);
            let s0 = join_texts(ts0, sep);
            let s1 = s0 + seq![sep];
            assert(join_texts(ts, sep) == s0 + seq![sep] + t);
            // splitting `s1` adds one empty piece after the pieces of `s0`
            assert(s1.len() > 0);
            assert(s1.last() == sep);
            assert(s1.drop_last() =~= s0);
            lemma_split_join_nonempty_len(ts0, sep);
            assert(split_text(s0, sep).len() >= 1);
            assert(split_text(s1, sep) == split_text(s0, sep).push(Seq::<char>::empty()));
            assert(split_text(s1, sep) == ts0.push(Seq::<char>::empty()));
            // appending the separator-free `t` fills that empty piece
            lemma_split_append(s1, t, sep);
            assert(s1 + t =~= s0 + seq![sep] + t);
            let r1 = split_text(s1, sep);
            assert(r1.last() + t =~= t);
            assert(r1.update(r1.len() - 1, r1.last() + t) =~= ts0.push(t));
            assert(ts0.push(t) =~= ts);
        }
    }
}

proof fn lemma_split_join_nonempty_len(ts: Seq<Seq<char>>, sep: char)
    requires
        ts.len() > 0,
        forall|i: int| 0 <= i < ts.len() ==> #[trigger] ts[i].len() > 0,
    ensures
        join_texts(ts, sep).len() > 0,
    decreases ts.len(),
{
    if ts.len() == 1 {
        assert(join_texts(ts, sep) == ts[0]);
    } else {
        assert(ts[0].len() > 0);
    }
}

/// The round trip on option-id cells: joining any integers with the
/// separator and re-splitting on it yields the integers' own decimal
/// texts back, and those texts read back as the original integers.
/// This holds for every separator that is neither a digit nor `-`.
pub proof fn lemma_option_ids_round_trip(ids: Seq<i32>, sep: char)
    requires
        !is_digit(sep),
        sep != '-',
    ensures
        split_text(ints_text(ids, sep), sep) == int_texts(ids),
        split_text(ints_text(ids, sep), sep).map_values(|t: Seq<char>| int_val(t))
            == ids.map_values(|n: i32| n as int),
{
    let ts = int_texts(ids);
    assert forall|i: int, j: int|
        0 <= i < ts.len() && 0 <= j < ts[i].len() implies #[trigger] ts[i][j] != sep by {
        lemma_int_text_shape(ids[i] as int);
        assert(ts[i] == int_text(ids[i] as int));
    }
    assert forall|i: int| 0 <= i < ts.len() implies #[trigger] ts[i].len() > 0 by {
        lemma_int_text_shape(ids[i] as int);
    }
    lemma_split_join(ts, sep);
    assert forall|i: int| 0 <= i < ts.len() implies #[trigger] int_val(ts[i]) == ids[i] as int by {
        lemma_int_val_int_text(ids[i] as int);
    }
    assert(ts.map_values(|t: Seq<char>| int_val(t)) =~= ids.map_values(|n: i32| n as int));
}

/// Renders an option-id list as one cell: the ids' decimal texts
/// joined by `sep`, the empty list as the empty string.
pub fn render_option_ids(ids: &Vec<i32>, sep: char) -> (s: String)
    ensures
        s@ == ints_text(ids@, sep),
{
    let mut s = String::new();
    let sep_s = char_to_string(sep);
    let mut i: usize = 0;
    while i < ids.len()
        invariant
            0 <= i <= ids@.len(),
            sep_s@ == seq![sep],
            s@ == join_texts(int_texts(ids@.take(i as int)), sep),
        decreases ids@.len() - i,
    {
        proof {
            assert(int_texts(ids@.take(i as int)).len() == i);
            lemma_join_push(
                int_texts(ids@.take(i as int)),
                sep,
                int_text(ids@[i as int] as int),
            );
            assert(int_texts(ids@.take(i as int + 1)) =~= int_texts(ids@.take(i as int)).push(
                int_text(ids@[i as int] as int),
            ));
        }
        if i > 0 {
            s.append(sep_s.as_str());
        }
        let t = i32_to_string(ids[i]);
        s.append(t.as_str());
        i += 1;
    }
    proof {
        assert(ids@.take(ids@.len() as int) =~= ids@);
    }
    s
}

/// The pieces a prefix has already closed with a separator.
spec fn split_done(s: Seq<char>, sep: char) -> Seq<Seq<char>> {
    if s.len() == 0 {
        Seq::empty()
    } else {
        split_text(s, sep).drop_last()
    }
}

/// The piece still open at the end of a prefix.
spec fn split_cur(s: Seq<char>, sep: char) -> Seq<char> {
    if s.len() == 0 {
        Seq::empty()
    } else {
        split_text(s, sep).last()
    }
}

proof fn lemma_split_step(pre: Seq<char>, c: char, sep: char)
    ensures
        c == sep ==> split_done(pre.push(c), sep) == split_done(pre, sep).push(
            split_cur(pre, sep),
        ) && split_cur(pre.push(c), sep) == Seq::<char>::empty(),
        c != sep ==> split_done(pre.push(c), sep) == split_done(pre, sep) && split_cur(
            pre.push(c),
            sep,
        ) == split_cur(pre, sep).push(c),
{
    let s = pre.push(c);
    assert(s.drop_last() =~= pre);
    assert(s.last() == c);
    let r = split_text(pre, sep);
    if pre.len() == 0 {
        let rr = seq![Seq::<char>::empty()];
        assert(split_text(pre, sep) == Seq::<Seq<char>>::empty());
        if c == sep {
            assert(split_text(s, sep) == rr.push(Seq::<char>::empty()));
            assert(rr.push(Seq::<char>::empty()).drop_last() =~= Seq::<Seq<char>>::empty().push(
                Seq::<char>::empty(),
            ));
        } else {
            assert(split_text(s, sep) == rr.update(0, rr.last().push(c)));
            assert(rr.update(0, rr.last().push(c)).drop_last() =~= Seq::<Seq<char>>::empty());
            assert(rr.update(0, rr.last().push(c)).last() == Seq::<char>::empty().push(c));
        }
    } else {
        lemma_split_len(pre, sep);
        assert(r.len() >= 1);
        if c == sep {
            assert(split_text(s, sep) == r.push(Seq::<char>::empty()));
            assert(r.push(Seq::<char>::empty()).drop_last() =~= r);
            assert(r =~= r.drop_last().push(r.last()));
        } else {
            let upd = r.update(r.len() - 1, r.last().push(c));
            assert(split_text(s, sep) == upd);
            assert(upd.drop_last() =~= r.drop_last());
            assert(upd.last() == r.last().push(c));
        }
    }
}

/// Splits a string at every occurrence of the separator: the inverse
/// of the option-id rendering. The empty string yields no pieces.
pub fn split_ids(s: &str, sep: char) -> (pieces: Vec<String>)
    ensures
        pieces@.map_values(|p: String| p@) == split_text(s@, sep),
{
    let n = s.unicode_len();
    let mut pieces: Vec<String> = Vec::new();
    let mut cur = String::new();
    if n == 0 {
        return pieces;
    }
    let mut i: usize = 0;
    while i < n
        invariant
            0 < n == s@.len(),
            0 <= i <= n,
            pieces@.map_values(|p: String| p@) == split_done(s@.take(i as int), sep),
            cur@ == split_cur(s@.take(i as int), sep),
        decreases n - i,
    {
        let ghost pre = s@.take(i as int);
        proof {
            assert(s@.take(i as int + 1) =~= pre.push(s@[i as int]));
            lemma_split_step(pre, s@[i as int], sep);
        }
        let c = s.get_char(i);
        if c == sep {
            let ghost old_pieces = pieces@;
            pieces.push(cur);
            cur = String::new();
            proof {
                assert(pieces@.map_values(|p: String| p@) =~= old_pieces.map_values(
                    |p: String| p@,
                ).push(split_cur(pre, sep)));
            }
        } else {
            let cs = char_to_string(c);
            cur.append(cs.as_str());
            proof {
                assert(split_cur(pre, sep) + seq![c] =~= split_cur(pre, sep).push(c));
            }
        }
        i += 1;
    }
    proof {
        assert(s@.take(n as int) =~= s@);
        lemma_split_len(s@, sep);
    }
    let ghost old_pieces = pieces@;
    pieces.push(cur);
    proof {
        assert(pieces@.map_values(|p: String| p@) =~= old_pieces.map_values(|p: String| p@).push(
            split_cur(s@, sep),
        ));
        assert(split_text(s@, sep) =~= split_text(s@, sep).drop_last().push(
            split_text(s@, sep).last(),
        ));
    }
    pieces
}

fn digit_of(c: char) -> (r: Option<u64>)
    ensures
        r matches Some(d) ==> is_digit(c) && d == digit_val(c),
        r is None ==> !is_digit(c),
{
    if c == '0' {
        Some(0)
    } else if c == '1' {
        Some(1)
    } else if c == '2' {
        Some(2)
    } else if c == '3' {
        Some(3)
    } else if c == '4' {
        Some(4)
    } else if c == '5' {
        Some(5)
    } else if c == '6' {
        Some(6)
    } else if c == '7' {
        Some(7)
    } else if c == '8' {
        Some(8)
    } else if c == '9' {
        Some(9)
    } else {
        None
    }
}

proof fn lemma_digits_val_nonneg(t: Seq<char>)
    requires
        forall|j: int| 0 <= j < t.len() ==> is_digit(#[trigger] t[j]),
    ensures
        digits_val(t) >= 0,
    decreases t.len(),
{
    if t.len() > 0 {
        assert(forall|j: int|
            0 <= j < t.drop_last().len() ==> is_digit(#[trigger] t.drop_last()[j]));
        lemma_digits_val_nonneg(t.drop_last());
        assert(is_digit(t.last()));
        assert(digit_val(t.last()) >= 0);
    }
}

/// A decimal numeral is at least as large as each of its prefixes.
proof fn lemma_digits_val_prefix(t: Seq<char>, k: int)
    requires
        0 <= k <= t.len(),
        forall|j: int| 0 <= j < t.len() ==> is_digit(#[trigger] t[j]),
    ensures
        digits_val(t.take(k)) <= digits_val(t),
    decreases t.len(),
{
    lemma_digits_val_nonneg(t);
    if k == t.len() {
        assert(t.take(k) =~= t);
    } else {
        let t0 = t.drop_last();
        assert(forall|j: int| 0 <= j < t0.len() ==> is_digit(#[trigger] t0[j]));
        lemma_digits_val_prefix(t0, k);
        lemma_digits_val_nonneg(t0);
        assert(t0.take(k) =~= t.take(k));
        assert(is_digit(t.last()));
        assert(digit_val(t.last()) >= 0);
        assert(digits_val(t) == digits_val(t0) * 10 + digit_val(t.last()));
    }
}

/// Reads a decimal integer, in the form the rendering writes one: an
/// optional leading `-`, then decimal digits. Every text that is the
/// decimal rendering of an `i32` parses back to exactly that value.
pub fn parse_i32(s: &str) -> (r: Option<i32>)
    ensures
        forall|n: i32| s@ == int_text(n as int) ==> r == Some(n),
{
    let len = s.unicode_len();
    if len == 0 {
        proof {
            assert forall|n: i32| s@ == int_text(n as int) implies false by {
                lemma_int_text_shape(n as int);
            }
        }
        return None;
    }
    let first = s.get_char(0);
    let neg = first == '-';
    let start: usize = if neg {
        1
    } else {
        0
    };
    if neg && len == 1 {
        proof {
            assert forall|n: i32| s@ == int_text(n as int) implies false by {
                lemma_int_text_shape(n as int);
            }
        }
        return None;
    }
    let mut acc: u64 = 0;
    let mut i: usize = start;
    while i < len
        invariant
            start <= i <= len,
            len == s@.len(),
            len >= 1,
            start <= 1,
            neg <==> start == 1,
            neg ==> s@[0] == '-' && len >= 2,
            !neg ==> s@[0] != '-',
            acc == digits_val(s@.subrange(start as int, i as int)),
            acc <= 0x8000_0000,
        decreases len - i,
    {
        let c = s.get_char(i);
        match digit_of(c) {
            Option::None => {
                proof {
                    assert forall|n: i32| s@ == int_text(n as int) implies false by {
                        lemma_int_text_shape(n as int);
                    }
                }
                return None;
            },
            Option::Some(d) => {
                let next = acc * 10 + d;
                proof {
                    assert(s@.subrange(start as int, i as int + 1).drop_last() =~= s@.subrange(
                        start as int,
                        i as int,
                    ));
                    assert(s@.subrange(start as int, i as int + 1).last() == s@[i as int]);
                }
                if next > 0x8000_0000 {
                    proof {
                        assert forall|n: i32| s@ == int_text(n as int) implies false by {
                            lemma_int_text_shape(n as int);
                            let m: int = if n < 0 {
                                -(n as int)
                            } else {
                                n as int
                            };
                            let digits = s@.subrange(start as int, len as int);
                            assert(digits =~= nat_text(m as nat));
                            lemma_digits_val_nat_text(m as nat);
                            assert(s@.subrange(start as int, i as int + 1) =~= digits.take(
                                i + 1 - start,
                            ));
                            lemma_digits_val_prefix(digits, i + 1 - start);
                            assert(m <= 0x8000_0000);
                        }
                    }
                    return None;
                }
                acc = next;
                i += 1;
            },
        }
    }
    proof {
        assert forall|n: i32| s@ == int_text(n as int) implies {
            let m: int = if n < 0 {
                -(n as int)
            } else {
                n as int
            };
            acc == m && (neg <==> n < 0)
        } by {
            lemma_int_text_shape(n as int);
            let m: int = if n < 0 {
                -(n as int)
            } else {
                n as int
            };
            let digits = s@.subrange(start as int, len as int);
            assert(digits =~= nat_text(m as nat));
            lemma_digits_val_nat_text(m as nat);
            assert(s@.subrange(start as int, len as int) =~= digits);
        }
    }
    if neg {
        let v: i32 = if acc == 0x8000_0000 {
            i32::MIN
        } else {
            -(acc as i32)
        };
        Some(v)
    } else {
        if acc > 0x7fff_ffff {
            proof {
                assert forall|n: i32| s@ == int_text(n as int) implies false by {
                    lemma_int_text_shape(n as int);
                }
            }
            return None;
        }
        Some(acc as i32)
    }
}

} // verus!

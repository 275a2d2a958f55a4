//! Writing a record as a data line and reading it back gives the same record.
use vstd::prelude::*;
use crate::record::{
    Date, PokemonView, ability_list, kept_pieces, measure_value, parse_line, record_of, date_value,
    measure_field, rate_field, date_field, types_of, MAX_WHOLE,
};
use crate::render::{digit_char, int_text, nat_text, quoted_list, render};
use crate::text::{
    all_digits, digit_value, digits_value, first_index, i32_value, is_digit, is_space, split, trim,
    trim_end, trim_start, without,
};

verus! {

/// `s` holds no `c`.
pub open spec fn free_of(s: Seq<char>, c: char) -> bool {
    forall|k: int| 0 <= k < s.len() ==> s[k] != c
}

/// The parts joined with `sep` between each two.
pub open spec fn join(parts: Seq<Seq<char>>, sep: Seq<char>) -> Seq<char>
    decreases parts.len(),
{
    if parts.len() == 0 {
        Seq::empty()
    } else if parts.len() == 1 {
        parts[0]
    } else {
        join(parts.drop_last(), sep) + sep + parts.last()
    }
}

proof fn lemma_split_free(b: Seq<char>, d: char)
    requires
        free_of(b, d),
    ensures
        split(b, d) == seq![b],
    decreases b.len(),
{
    if b.len() > 0 {
        lemma_split_free(b.drop_last(), d);
        assert(b.drop_last().push(b.last()) =~= b);
        assert(seq![b.drop_last()].update(0, b.drop_last().push(b.last())) =~= seq![b]);
    } else {
        assert(b =~= Seq::<char>::empty());
    }
}

proof fn lemma_split_append(a: Seq<char>, b: Seq<char>, d: char)
    requires
        free_of(b, d),
    ensures
        split(a + seq![d] + b, d) == split(a, d).push(b),
    decreases b.len(),
{
    let s = a + seq![d] + b;
    if b.len() == 0 {
        assert(s.drop_last() =~= a);
        assert(b =~= Seq::<char>::empty());
    } else {
        let b0 = b.drop_last();
        assert(s.drop_last() =~= a + seq![d] + b0);
        lemma_split_append(a, b0, d);
        assert(b0.push(b.last()) =~= b);
        assert(split(a, d).push(b0).update(split(a, d).len() as int, b0.push(b.last())) =~= split(a, d).push(b));
    }
}

proof fn lemma_split_join(parts: Seq<Seq<char>>, d: char)
    requires
        parts.len() >= 1,
        forall|k: int| 0 <= k < parts.len() ==> free_of(#[trigger] parts[k], d),
    ensures
        split(join(parts, seq![d]), d) == parts,
    decreases parts.len(),
{
    if parts.len() == 1 {
        lemma_split_free(parts[0], d);
        assert(seq![parts[0]] =~= parts);
    } else {
        let p = parts.drop_last();
        lemma_split_join(p, d);
        assert(free_of(parts[parts.len() - 1], d));
        lemma_split_append(join(p, seq![d]), parts.last(), d);
        assert(p.push(parts.last()) =~= parts);
    }
}

proof fn lemma_join_concat(p: Seq<Seq<char>>, q: Seq<Seq<char>>, sep: Seq<char>)
    requires
        p.len() >= 1,
        q.len() >= 1,
    ensures
        join(p + q, sep) == join(p, sep) + sep + join(q, sep),
    decreases q.len(),
{
    if q.len() == 1 {
        assert((p + q).drop_last() =~= p);
    } else {
        assert((p + q).drop_last() =~= p + q.drop_last());
        lemma_join_concat(p, q.drop_last(), sep);
        assert(join(p, sep) + sep + join(q.drop_last(), sep) + sep + q.last() =~= join(p, sep) + sep
            + join(q, sep));
    }
}

proof fn lemma_join_free(parts: Seq<Seq<char>>, sep: Seq<char>, c: char)
    requires
        free_of(sep, c),
        forall|k: int| 0 <= k < parts.len() ==> free_of(#[trigger] parts[k], c),
    ensures
        free_of(join(parts, sep), c),
    decreases parts.len(),
{
    if parts.len() > 1 {
        lemma_join_free(parts.drop_last(), sep, c);
        assert(free_of(parts[parts.len() - 1], c));
    } else if parts.len() == 1 {
        assert(free_of(parts[0], c));
    }
}

proof fn lemma_first_index_at(s: Seq<char>, c: char, k: int)
    requires
        0 <= k < s.len(),
        s[k] == c,
        forall|m: int| 0 <= m < k ==> s[m] != c,
    ensures
        first_index(s, c) == Some(k),
{
    reveal(first_index);
    let w = choose|w: int| 0 <= w < s.len() && s[w] == c && forall|m: int| 0 <= m < w ==> s[m] != c;
    assert(0 <= w < s.len() && s[w] == c && forall|m: int| 0 <= m < w ==> s[m] != c) by {
        assert(0 <= k < s.len() && s[k] == c && forall|m: int| 0 <= m < k ==> s[m] != c);
    }
    if w < k {
        assert(s[w] != c);
    }
    if k < w {
        assert(s[k] != c);
    }
}

proof fn lemma_digit_char(d: int)
    requires
        0 <= d < 10,
    ensures
        is_digit(digit_char(d)),
        digit_value(digit_char(d)) == d,
{
}

proof fn lemma_nat_text(n: nat)
    ensures
        nat_text(n).len() >= 1,
        all_digits(nat_text(n)),
        digits_value(nat_text(n)) == n,
    decreases n,
{
    if n >= 10 {
        lemma_nat_text(n / 10);
        lemma_digit_char((n % 10) as int);
        assert(nat_text(n).drop_last() =~= nat_text(n / 10));
        assert(nat_text(n).last() == digit_char((n % 10) as int));
        assert(digits_value(nat_text(n)) == 10 * (n / 10) + n % 10);
        assert(is_digit(nat_text(n).last()));
    } else {
        lemma_digit_char(n as int);
        assert(nat_text(n).drop_last() =~= Seq::<char>::empty());
        assert(digits_value(nat_text(n).drop_last()) == 0);
    }
}

proof fn lemma_digits_free(s: Seq<char>, c: char)
    requires
        all_digits(s),
        !is_digit(c),
    ensures
        free_of(s, c),
{
    assert forall|k: int| 0 <= k < s.len() implies s[k] != c by {
        assert(is_digit(s[k]));
    }
}

proof fn lemma_int_text(n: i32)
    ensures
        i32_value(int_text(n as int)) == Some(n),
        int_text(n as int).len() >= 1,
{
    if n < 0 {
        let m = (-(n as int)) as nat;
        lemma_nat_text(m);
        assert(int_text(n as int).drop_first() =~= nat_text(m));
    } else {
        lemma_nat_text(n as nat);
        assert(is_digit(int_text(n as int)[0]));
    }
}

proof fn lemma_int_text_free(n: i32, c: char)
    requires
        !is_digit(c),
        c != '-',
    ensures
        free_of(int_text(n as int), c),
{
    let s = int_text(n as int);
    if n < 0 {
        let m = (-(n as int)) as nat;
        lemma_nat_text(m);
        lemma_digits_free(nat_text(m), c);
        assert forall|k: int| 0 <= k < s.len() implies s[k] != c by {
            if k > 0 {
                assert(s[k] == nat_text(m)[k - 1]);
            }
        }
    } else {
        lemma_nat_text(n as nat);
        lemma_digits_free(nat_text(n as nat), c);
    }
}

proof fn lemma_measure_free(t: u64, c: char)
    requires
        !is_digit(c),
        c != '.',
    ensures
        free_of(measure_csv(t as nat), c),
{
    let w = nat_text((t / 1000) as nat);
    let r = (t % 1000) as int;
    let f = seq![digit_char(r / 100), digit_char((r / 10) % 10), digit_char(r % 10)];
    let s = measure_csv(t as nat);
    lemma_nat_text((t / 1000) as nat);
    lemma_digit_char(r / 100);
    lemma_digit_char((r / 10) % 10);
    lemma_digit_char(r % 10);
    assert(s =~= w + seq!['.'] + f);
    lemma_digits_free(w, c);
    assert(all_digits(f));
    lemma_digits_free(f, c);
    assert forall|k: int| 0 <= k < s.len() implies s[k] != c by {
        if k < w.len() {
            assert(s[k] == w[k]);
        } else if k > w.len() {
            assert(s[k] == f[k - w.len() - 1]);
        }
    }
}

/// A measure written with three fraction digits.
pub open spec fn measure_csv(thousandths: nat) -> Seq<char> {
    let r = (thousandths % 1000) as int;
    nat_text(thousandths / 1000) + seq!['.', digit_char(r / 100), digit_char((r / 10) % 10), digit_char(r % 10)]
}

proof fn lemma_measure_csv(t: u64)
    requires
        t / 1000 <= MAX_WHOLE,
    ensures
        measure_value(measure_csv(t as nat)) == Some(t),
        measure_csv(t as nat).len() > 0,
{
    let w = nat_text((t / 1000) as nat);
    let r = (t % 1000) as int;
    let f = seq![digit_char(r / 100), digit_char((r / 10) % 10), digit_char(r % 10)];
    let s = measure_csv(t as nat);
    lemma_nat_text((t / 1000) as nat);
    lemma_digit_char(r / 100);
    lemma_digit_char((r / 10) % 10);
    lemma_digit_char(r % 10);
    assert(s =~= w + seq!['.'] + f);
    lemma_digits_free(w, '.');
    lemma_first_index_at(s, '.', w.len() as int);
    assert(s.subrange(0, w.len() as int) =~= w);
    assert(s.subrange(w.len() as int + 1, s.len() as int) =~= f);
    assert(all_digits(f));
    assert(f.drop_last().drop_last().drop_last() =~= Seq::<char>::empty());
    assert(digits_value(f) == 100 * (r / 100) + 10 * ((r / 10) % 10) + r % 10) by {
        assert(f.drop_last() =~= seq![digit_char(r / 100), digit_char((r / 10) % 10)]);
        assert(f.drop_last().drop_last() =~= seq![digit_char(r / 100)]);
        reveal_with_fuel(digits_value, 4);
    }
    assert(100 * (r / 100) + 10 * ((r / 10) % 10) + r % 10 == r);
}

proof fn lemma_without_concat(a: Seq<char>, b: Seq<char>, c: char)
    ensures
        without(a + b, c) == without(a, c) + without(b, c),
    decreases b.len(),
{
    if b.len() == 0 {
        assert(a + b =~= a);
        assert(without(a, c) + without(b, c) =~= without(a, c));
    } else {
        assert((a + b).drop_last() =~= a + b.drop_last());
        lemma_without_concat(a, b.drop_last(), c);
        if b.last() == c {
        } else {
            assert(without(a, c) + without(b.drop_last(), c).push(b.last()) =~= (without(a, c) + without(
                b.drop_last(),
                c,
            )).push(b.last()));
        }
    }
}

proof fn lemma_without_free(a: Seq<char>, c: char)
    requires
        free_of(a, c),
    ensures
        without(a, c) == a,
    decreases a.len(),
{
    if a.len() > 0 {
        lemma_without_free(a.drop_last(), c);
        assert(a.drop_last().push(a.last()) =~= a);
    }
}

/// An ability as a data line can hold it: not empty, no white space at
/// either end, and none of the characters that delimit the list.
pub open spec fn ability_ok(a: Seq<char>) -> bool {
    &&& a.len() > 0
    &&& !is_space(a[0])
    &&& !is_space(a.last())
    &&& free_of(a, '\'')
    &&& free_of(a, ',')
    &&& free_of(a, '[')
    &&& free_of(a, ']')
}

proof fn lemma_unquote(ab: Seq<Seq<char>>)
    requires
        forall|k: int| 0 <= k < ab.len() ==> ability_ok(#[trigger] ab[k]),
    ensures
        without(quoted_list(ab), '\'') == join(ab, seq![',', ' ']),
    decreases ab.len(),
{
    let q = seq!['\''];
    if ab.len() == 1 {
        assert(ability_ok(ab[0]));
        lemma_without_concat(q + ab[0], q, '\'');
        lemma_without_concat(q, ab[0], '\'');
        lemma_without_free(ab[0], '\'');
        assert(without(q, '\'') =~= Seq::<char>::empty()) by {
            assert(q.drop_last() =~= Seq::<char>::empty());
            assert(without(q.drop_last(), '\'') == q.drop_last());
        }
        assert(without(quoted_list(ab), '\'') =~= ab[0]);
    } else if ab.len() > 1 {
        let dl = ab.drop_last();
        let l = ab.last();
        assert(ability_ok(ab[ab.len() - 1]));
        lemma_unquote(dl);
        let mid = seq![',', ' ', '\''];
        lemma_without_concat(quoted_list(dl) + mid + l, q, '\'');
        lemma_without_concat(quoted_list(dl) + mid, l, '\'');
        lemma_without_concat(quoted_list(dl), mid, '\'');
        lemma_without_free(l, '\'');
        assert(without(q, '\'') =~= Seq::<char>::empty()) by {
            assert(q.drop_last() =~= Seq::<char>::empty());
            assert(without(q.drop_last(), '\'') == q.drop_last());
        }
        assert(without(mid, '\'') =~= seq![',', ' ']) by {
            let m2 = seq![',', ' '];
            let m1 = seq![','];
            assert(mid.drop_last() =~= m2);
            assert(m2.drop_last() =~= m1);
            assert(m1.drop_last().len() == 0);
            assert(without(m1.drop_last(), '\'') == m1.drop_last());
            assert(without(m1, '\'') =~= m1);
            assert(without(m2, '\'') =~= m2);
        }
        assert(without(quoted_list(ab), '\'') =~= join(ab, seq![',', ' ']));
    }
}

/// The pieces a comma split leaves of abilities joined by `, `.
pub open spec fn pieces(ab: Seq<Seq<char>>) -> Seq<Seq<char>> {
    Seq::new(ab.len(), |k: int| if k == 0 { ab[0] } else { seq![' '] + ab[k] })
}

proof fn lemma_split_pieces(ab: Seq<Seq<char>>)
    requires
        ab.len() >= 1,
        forall|k: int| 0 <= k < ab.len() ==> ability_ok(#[trigger] ab[k]),
    ensures
        split(join(ab, seq![',', ' ']), ',') == pieces(ab),
    decreases ab.len(),
{
    if ab.len() == 1 {
        assert(ability_ok(ab[0]));
        lemma_split_free(ab[0], ',');
        assert(pieces(ab) =~= seq![ab[0]]);
    } else {
        let dl = ab.drop_last();
        let l = ab.last();
        assert(ability_ok(ab[ab.len() - 1]));
        lemma_split_pieces(dl);
        let sl = seq![' '] + l;
        assert forall|k: int| 0 <= k < sl.len() implies sl[k] != ',' by {
            if k > 0 {
                assert(sl[k] == l[k - 1]);
            }
        }
        assert(join(ab, seq![',', ' ']) =~= join(dl, seq![',', ' ']) + seq![','] + sl);
        lemma_split_append(join(dl, seq![',', ' ']), sl, ',');
        assert(pieces(dl).push(sl) =~= pieces(ab));
    }
}

proof fn lemma_trim_clean(a: Seq<char>)
    requires
        a.len() > 0,
        !is_space(a[0]),
        !is_space(a.last()),
    ensures
        trim(a) == a,
        trim(seq![' '] + a) == a,
{
    let b = seq![' '] + a;
    assert(b.drop_first() =~= a);
    assert(b[0] == ' ');
    assert(is_space(b[0]));
    assert(trim_start(a) == a);
    assert(trim_start(b) == trim_start(b.drop_first()));
    assert(trim_end(a) == a);
}

proof fn lemma_kept_pieces(ab: Seq<Seq<char>>)
    requires
        ab.len() >= 1,
        forall|k: int| 0 <= k < ab.len() ==> ability_ok(#[trigger] ab[k]),
    ensures
        kept_pieces(pieces(ab)) == ab,
    decreases ab.len(),
{
    let p = pieces(ab);
    assert(ability_ok(ab[ab.len() - 1]));
    lemma_trim_clean(ab.last());
    if ab.len() == 1 {
        assert(p.drop_last() =~= Seq::<Seq<char>>::empty());
        assert(p.last() == ab[0]);
        assert(kept_pieces(p.drop_last()) == p.drop_last());
        assert(kept_pieces(p) =~= ab);
    } else {
        lemma_kept_pieces(ab.drop_last());
        assert(p.drop_last() =~= pieces(ab.drop_last()));
        assert(p.last() == seq![' '] + ab.last());
        assert(ab.drop_last().push(ab.last()) =~= ab);
        assert(kept_pieces(p) =~= ab);
    }
}

/// The abilities written as a bracketed list read back as themselves.
proof fn lemma_abilities(ab: Seq<Seq<char>>)
    requires
        forall|k: int| 0 <= k < ab.len() ==> ability_ok(#[trigger] ab[k]),
    ensures
        ability_list(quoted_list(ab)) == ab,
{
    lemma_unquote(ab);
    if ab.len() == 0 {
        let e = Seq::<char>::empty();
        assert(split(e, ',') == seq![e]);
        assert(seq![e].drop_last() =~= Seq::<Seq<char>>::empty());
        assert(trim(e) == e);
        assert(kept_pieces(seq![e].drop_last()) == seq![e].drop_last());
        assert(kept_pieces(seq![e]) =~= ab);
    } else {
        lemma_split_pieces(ab);
        lemma_kept_pieces(ab);
    }
}

/// A date written `D/M/Y`.
pub open spec fn date_csv(d: Date) -> Seq<char> {
    join(seq![int_text(d.day as int), int_text(d.month as int), int_text(d.year as int)], seq!['/'])
}

/// `s`, or nothing where the field is left blank.
pub open spec fn optional(blank: bool, s: Seq<char>) -> Seq<char> {
    if blank {
        Seq::empty()
    } else {
        s
    }
}

/// The twelve fields of the data line for `v`, with the ability list's
/// place left as an empty quoted text.
pub open spec fn line_fields(v: PokemonView, blank: bool) -> Seq<Seq<char>> {
    seq![
        int_text(v.id as int),
        int_text(v.generation as int),
        v.name,
        v.description,
        v.types[0],
        if v.types.len() == 2 { v.types[1] } else { Seq::empty() },
        seq!['"', '"'],
        optional(blank, measure_csv(v.weight as nat)),
        optional(blank, measure_csv(v.height as nat)),
        optional(blank, int_text(v.capture_rate as int)),
        if v.is_legendary { seq!['1'] } else { seq!['0'] },
        optional(blank, date_csv(v.capture_date)),
    ]
}

/// The data line for `v`: its fields separated by commas, with the ability
/// list written `"['a', 'b']"` in the seventh place. With `blank`, weight,
/// height, capture rate and date are left empty.
pub open spec fn data_line(v: PokemonView, blank: bool) -> Seq<char> {
    let f = line_fields(v, blank);
    join(f.subrange(0, 6), seq![',']) + seq![',', '"', '['] + quoted_list(v.abilities) + seq![
        ']',
        '"',
        ',',
    ] + join(f.subrange(7, 12), seq![','])
}

/// A text field holds none of the characters that delimit fields or the
/// ability list.
pub open spec fn text_ok(s: Seq<char>) -> bool {
    free_of(s, ',') && free_of(s, '[') && free_of(s, ']')
}

/// A record that a data line can describe.
pub open spec fn writable(v: PokemonView) -> bool {
    &&& text_ok(v.name)
    &&& text_ok(v.description)
    &&& (v.types.len() == 1 || (v.types.len() == 2 && v.types[1].len() > 0))
    &&& forall|k: int| 0 <= k < v.types.len() ==> text_ok(#[trigger] v.types[k])
    &&& forall|k: int| 0 <= k < v.abilities.len() ==> ability_ok(#[trigger] v.abilities[k])
    &&& v.weight / 1000 <= MAX_WHOLE
    &&& v.height / 1000 <= MAX_WHOLE
}

/// The optional fields hold their default values.
pub open spec fn optional_zero(v: PokemonView) -> bool {
    v.weight == 0 && v.height == 0 && v.capture_rate == 0 && v.capture_date == Date {
        day: 0,
        month: 0,
        year: 0,
    }
}

proof fn lemma_quoted_free(ab: Seq<Seq<char>>, c: char)
    requires
        c != '\'' && c != ',' && c != ' ',
        forall|k: int| 0 <= k < ab.len() ==> free_of(#[trigger] ab[k], c),
    ensures
        free_of(quoted_list(ab), c),
    decreases ab.len(),
{
    let s = quoted_list(ab);
    if ab.len() == 1 {
        assert(free_of(ab[0], c));
        assert forall|k: int| 0 <= k < s.len() implies s[k] != c by {
            if 0 < k < s.len() - 1 {
                assert(s[k] == ab[0][k - 1]);
            }
        }
    } else if ab.len() > 1 {
        let dl = ab.drop_last();
        let l = ab.last();
        lemma_quoted_free(dl, c);
        assert(free_of(ab[ab.len() - 1], c));
        let a = quoted_list(dl);
        assert forall|k: int| 0 <= k < s.len() implies s[k] != c by {
            if k < a.len() {
                assert(s[k] == a[k]);
            } else if a.len() + 3 <= k < a.len() + 3 + l.len() {
                assert(s[k] == l[k - a.len() - 3]);
            }
        }
    }
}

proof fn lemma_fields_free(v: PokemonView, blank: bool, c: char)
    requires
        writable(v),
        c == ',' || c == '[' || c == ']',
    ensures
        forall|k: int| 0 <= k < 12 ==> free_of(#[trigger] line_fields(v, blank)[k], c),
{
    let f = line_fields(v, blank);
    assert(!is_digit(c) && c != '-' && c != '.' && c != '/');
    lemma_int_text_free(v.id, c);
    lemma_int_text_free(v.generation, c);
    lemma_int_text_free(v.capture_rate, c);
    lemma_measure_free(v.weight, c);
    lemma_measure_free(v.height, c);
    lemma_int_text_free(v.capture_date.day, c);
    lemma_int_text_free(v.capture_date.month, c);
    lemma_int_text_free(v.capture_date.year, c);
    let dp = seq![
        int_text(v.capture_date.day as int),
        int_text(v.capture_date.month as int),
        int_text(v.capture_date.year as int),
    ];
    assert(free_of(seq!['/'], c));
    assert forall|k: int| 0 <= k < 3 implies free_of(#[trigger] dp[k], c) by {}
    lemma_join_free(dp, seq!['/'], c);
    assert(text_ok(v.types[0]));
    if v.types.len() == 2 {
        assert(text_ok(v.types[1]));
    }
    assert(free_of(f[0], c));
    assert(free_of(f[1], c));
    assert(free_of(f[2], c));
    assert(free_of(f[3], c));
    assert(free_of(f[4], c));
    assert(free_of(f[5], c));
    assert(free_of(f[6], c));
    assert(free_of(f[7], c));
    assert(free_of(f[8], c));
    assert(free_of(f[9], c));
    assert(free_of(f[10], c));
    assert(free_of(f[11], c));
}

proof fn lemma_date_csv(d: Date)
    ensures
        date_value(date_csv(d)) == Some(d),
        date_csv(d).len() > 0,
{
    lemma_int_text(d.day);
    lemma_int_text(d.month);
    lemma_int_text(d.year);
    let dp = seq![int_text(d.day as int), int_text(d.month as int), int_text(d.year as int)];
    assert(!is_digit('/'));
    lemma_int_text_free(d.day, '/');
    lemma_int_text_free(d.month, '/');
    lemma_int_text_free(d.year, '/');
    assert forall|k: int| 0 <= k < 3 implies free_of(#[trigger] dp[k], '/') by {}
    lemma_split_join(dp, '/');
    assert(dp.drop_last().drop_last() =~= seq![int_text(d.day as int)]);
    assert(dp.drop_last() =~= seq![int_text(d.day as int), int_text(d.month as int)]);
}

/// The fields of the data line describe `v`.
#[verifier::rlimit(100)]
proof fn lemma_record_of_fields(v: PokemonView, blank: bool)
    requires
        writable(v),
        blank ==> optional_zero(v),
    ensures
        record_of(line_fields(v, blank), v.abilities) == Ok::<PokemonView, crate::record::CatalogError>(v),
{
    reveal(record_of);
    let f = line_fields(v, blank);
    lemma_int_text(v.id);
    lemma_int_text(v.generation);
    lemma_int_text(v.capture_rate);
    if !blank {
        lemma_measure_csv(v.weight);
        lemma_measure_csv(v.height);
        lemma_date_csv(v.capture_date);
    }
    assert(measure_field(f[7]) == Some(v.weight));
    assert(measure_field(f[8]) == Some(v.height));
    assert(rate_field(f[9]) == Some(v.capture_rate));
    assert(date_field(f[11]) == Some(v.capture_date));
    if v.types.len() == 2 {
        assert(types_of(f[4], f[5]) =~= v.types);
    } else {
        assert(types_of(f[4], f[5]) =~= v.types);
    }
    if !v.is_legendary {
        assert(f[10][0] != seq!['1'][0]);
    }
    assert(record_of(f, v.abilities) == Ok::<PokemonView, crate::record::CatalogError>(v));
}

/// Where the bracketed list sits in a line, and what is left around it.
#[verifier::rlimit(100)]
proof fn lemma_line_positions(h: Seq<char>, content: Seq<char>, t: Seq<char>)
    requires
        free_of(h, '['),
        free_of(h, ']'),
        free_of(content, '['),
        free_of(content, ']'),
    ensures
        ({
            let line = h + seq![',', '"', '['] + content + seq![']', '"', ','] + t;
            let open: int = h.len() as int + 2;
            let close: int = open + 1 + content.len();
            &&& first_index(line, '[') == Some(open)
            &&& first_index(line, ']') == Some(close)
            &&& open < close
            &&& line.subrange(open + 1, close) == content
            &&& line.subrange(0, open) + line.subrange(close + 1, line.len() as int) == h + seq![','] + seq![
                '"',
                '"',
            ] + seq![','] + t
        }),
{
    let line = h + seq![',', '"', '['] + content + seq![']', '"', ','] + t;
    let open: int = h.len() as int + 2;
    let close: int = open + 1 + content.len();
    assert forall|m: int| 0 <= m < open implies line[m] != '[' by {
        if m < h.len() {
            assert(line[m] == h[m]);
        }
    }
    lemma_first_index_at(line, '[', open);
    assert forall|m: int| 0 <= m < close implies line[m] != ']' by {
        if m < h.len() {
            assert(line[m] == h[m]);
        } else if open < m {
            assert(line[m] == content[m - open - 1]);
        }
    }
    lemma_first_index_at(line, ']', close);
    assert(line.subrange(open + 1, close) =~= content);
    assert(line.subrange(0, open) + line.subrange(close + 1, line.len() as int) =~= h + seq![','] + seq![
        '"',
        '"',
    ] + seq![','] + t);
}

proof fn lemma_line_shape(h: Seq<char>, content: Seq<char>, t: Seq<char>)
    requires
        free_of(h, '['),
        free_of(h, ']'),
        free_of(content, '['),
        free_of(content, ']'),
    ensures
        parse_line(h + seq![',', '"', '['] + content + seq![']', '"', ','] + t) == record_of(
            split(h + seq![','] + seq!['"', '"'] + seq![','] + t, ','),
            ability_list(content),
        ),
{
    reveal(parse_line);
    lemma_line_positions(h, content, t);
}

/// A record written as a data line reads back as the same record, so that
/// rendering what was read shows each of the record's values. With `blank`
/// the optional fields are left empty in the line and read back as their
/// defaults, which the record must then hold.
pub proof fn lemma_round_trip(v: PokemonView, blank: bool)
    requires
        writable(v),
        blank ==> optional_zero(v),
    ensures
        parse_line(data_line(v, blank)) == Ok::<PokemonView, crate::record::CatalogError>(v),
        render(parse_line(data_line(v, blank))->Ok_0) == render(v),
{
    let f = line_fields(v, blank);
    let sep = seq![','];
    let h = join(f.subrange(0, 6), sep);
    let t = join(f.subrange(7, 12), sep);
    let content = quoted_list(v.abilities);
    assert(data_line(v, blank) == h + seq![',', '"', '['] + content + seq![']', '"', ','] + t);

    lemma_fields_free(v, blank, ',');
    lemma_fields_free(v, blank, '[');
    lemma_fields_free(v, blank, ']');
    assert forall|k: int| 0 <= k < 6 implies free_of(#[trigger] f.subrange(0, 6)[k], '[') && free_of(
        f.subrange(0, 6)[k],
        ']',
    ) by {
        assert(f.subrange(0, 6)[k] == f[k]);
    }
    lemma_join_free(f.subrange(0, 6), sep, '[');
    lemma_join_free(f.subrange(0, 6), sep, ']');
    assert forall|k: int| 0 <= k < v.abilities.len() implies free_of(#[trigger] v.abilities[k], '[')
        && free_of(v.abilities[k], ']') by {
        assert(ability_ok(v.abilities[k]));
    }
    lemma_quoted_free(v.abilities, '[');
    lemma_quoted_free(v.abilities, ']');
    lemma_line_shape(h, content, t);
    lemma_abilities(v.abilities);

    assert(f[6] == seq!['"', '"']);
    lemma_join_concat(seq![f[6]], f.subrange(7, 12), sep);
    assert(seq![f[6]] + f.subrange(7, 12) =~= f.subrange(6, 12));
    lemma_join_concat(f.subrange(0, 6), f.subrange(6, 12), sep);
    assert(f.subrange(0, 6) + f.subrange(6, 12) =~= f);
    assert(h + sep + seq!['"', '"'] + sep + t =~= join(f, sep));
    assert forall|k: int| 0 <= k < f.len() implies free_of(#[trigger] f[k], ',') by {}
    lemma_split_join(f, ',');
    lemma_record_of_fields(v, blank);
}

} // verus!

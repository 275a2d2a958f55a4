use vstd::prelude::*;
use crate::text::{
    all_digits, all_digits_in, chars_of, digit_value, digits_upto, digits_value, find_char,
    first_index, i32_value, is_digit, lemma_digits_below, parse_i32, pow10, remove_char, slice_of,
    split, split_on, string_of, trim, trim_chars, views, without,
};

verus! {

/// A calendar date as written in the data; no calendar validation is made.
#[derive(Clone, Copy, Debug, PartialEq, Eq)]
pub struct Date {
    pub day: i32,
    pub month: i32,
    pub year: i32,
}

/// A non-negative real quantity held exactly, in thousandths of its unit.
#[derive(Clone, Copy, Debug, PartialEq, Eq)]
pub struct Measure {
    pub thousandths: u64,
}

/// The ways a record line, or a choice of records, can be rejected.
#[derive(Clone, Copy, Debug, PartialEq, Eq)]
pub enum CatalogError {
    /// A field cannot be read as the number or date it holds.
    ParseError,
    /// A line lacks a field it must have, or its bracketed ability list.
    FieldCountError,
    /// A chosen identifier names no record of the dataset.
    IndexError,
}

/// One catalog entry.
#[derive(Clone, Debug, PartialEq)]
pub struct Pokemon {
    pub id: i32,
    pub generation: i32,
    pub name: String,
    pub description: String,
    pub types: Vec<String>,
    pub abilities: Vec<String>,
    pub weight: Measure,
    pub height: Measure,
    pub capture_rate: i32,
    pub is_legendary: bool,
    pub capture_date: Date,
}

/// The key of the heap sort engine.
pub open spec fn height_key(p: Pokemon) -> int {
    p.height.thousandths as int
}

/// The key of the partition sort engine.
pub open spec fn generation_key(p: Pokemon) -> int {
    p.generation as int
}

/// What a record holds, with its text as character sequences.
pub struct PokemonView {
    pub id: i32,
    pub generation: i32,
    pub name: Seq<char>,
    pub description: Seq<char>,
    pub types: Seq<Seq<char>>,
    pub abilities: Seq<Seq<char>>,
    pub weight: u64,
    pub height: u64,
    pub capture_rate: i32,
    pub is_legendary: bool,
    pub capture_date: Date,
}

/// The character sequences held by a vector of strings.
pub open spec fn texts(v: Seq<String>) -> Seq<Seq<char>> {
    v.map_values(|x: String| x@)
}

impl View for Pokemon {
    type V = PokemonView;

    open spec fn view(&self) -> PokemonView {
        PokemonView {
            id: self.id,
            generation: self.generation,
            name: self.name@,
            description: self.description@,
            types: texts(self.types@),
            abilities: texts(self.abilities@),
            weight: self.weight.thousandths,
            height: self.height.thousandths,
            capture_rate: self.capture_rate,
            is_legendary: self.is_legendary,
            capture_date: self.capture_date,
        }
    }
}

/// The largest whole part a measure may have.
pub const MAX_WHOLE: u64 = 1_000_000_000_000_000;

/// The weight of a fraction digit count in thousandths.
pub open spec fn fraction_scale(n: nat) -> int {
    if n == 0 {
        1000
    } else if n == 1 {
        100
    } else if n == 2 {
        10
    } else {
        1
    }
}

/// A non-negative decimal `W`, `W.F`, `.F` or `W.`, in thousandths: fraction
/// digits past the third are rounded, halves up.
pub open spec fn measure_value(s: Seq<char>) -> Option<u64> {
    let whole = match first_index(s, '.') {
        Some(p) => s.subrange(0, p),
        None => s,
    };
    let frac = match first_index(s, '.') {
        Some(p) => s.subrange(p + 1, s.len() as int),
        None => Seq::<char>::empty(),
    };
    let kept = if frac.len() <= 3 { frac } else { frac.subrange(0, 3) };
    let up: int = if frac.len() > 3 && digit_value(frac[3]) >= 5 { 1 } else { 0 };
    if whole.len() + frac.len() > 0 && all_digits(whole) && all_digits(frac) && digits_value(whole)
        <= MAX_WHOLE {
        Some((digits_value(whole) * 1000 + digits_value(kept) * fraction_scale(kept.len()) + up) as u64)
    } else {
        None
    }
}

/// Reads a non-negative decimal measure.
pub fn parse_measure(s: &Vec<char>) -> (r: Option<Measure>)
    ensures
        r matches Some(m) ==> measure_value(s@) == Some(m.thousandths),
        r is None ==> measure_value(s@) is None,
{
    let n = s.len();
    let (w_end, f_start) = match find_char(s, '.') {
        Some(p) => (p, p + 1),
        None => (n, n),
    };
    proof {
        assert(s@.subrange(0, n as int) =~= s@);
        assert(s@.subrange(n as int, n as int) =~= Seq::<char>::empty());
    }
    let ghost ft = s@.subrange(f_start as int, n as int);
    if w_end + (n - f_start) == 0 {
        return None;
    }
    let whole = match digits_upto(s, 0, w_end, MAX_WHOLE) {
        Some(v) => v,
        None => {
            return None;
        },
    };
    let kept_end: usize = if n - f_start > 3 { f_start + 3 } else { n };
    let ghost kt = s@.subrange(f_start as int, kept_end as int);
    proof {
        assert(ft.len() > 3 ==> ft.subrange(0, 3) =~= kt);
        assert(ft.len() <= 3 ==> ft =~= kt);
    }
    if !all_digits_in(s, kept_end, n) {
        proof {
            let rt = s@.subrange(kept_end as int, n as int);
            let k = choose|k: int| 0 <= k < rt.len() && !is_digit(rt[k]);
            assert(ft[k + kept_end - f_start] == rt[k]);
        }
        return None;
    }
    let frac = match digits_upto(s, f_start, kept_end, 1000) {
        Some(v) => v,
        None => {
            proof {
                if all_digits(kt) {
                    lemma_digits_below(kt);
                    assert(pow10(0) == 1 && pow10(1) == 10 && pow10(2) == 100 && pow10(3) == 1000) by {
                        reveal_with_fuel(pow10, 4);
                    }
                } else {
                    let k = choose|k: int| 0 <= k < kt.len() && !is_digit(kt[k]);
                    assert(ft[k] == kt[k]);
                }
            }
            return None;
        },
    };
    proof {
        assert forall|k: int| 0 <= k < ft.len() implies is_digit(#[trigger] ft[k]) by {
            if k < kt.len() {
                assert(ft[k] == kt[k]);
            } else {
                assert(ft[k] == s@.subrange(kept_end as int, n as int)[k - kt.len()]);
            }
        }
    }
    let len = kept_end - f_start;
    let scale: u64 = if len == 0 {
        1000
    } else if len == 1 {
        100
    } else if len == 2 {
        10
    } else {
        1
    };
    let up: u64 = if n - f_start > 3 && s[f_start + 3] >= '5' { 1 } else { 0 };
    proof {
        lemma_digits_below(kt);
        assert(pow10(0) == 1 && pow10(1) == 10 && pow10(2) == 100 && pow10(3) == 1000) by {
            reveal_with_fuel(pow10, 4);
        }
        assert(scale == fraction_scale(len as nat));
        assert(frac * scale < 1000) by (nonlinear_arith)
            requires
                frac < pow10(len as nat),
                len <= 3,
                len == 0 ==> scale == 1000 && pow10(len as nat) == 1,
                len == 1 ==> scale == 100 && pow10(len as nat) == 10,
                len == 2 ==> scale == 10 && pow10(len as nat) == 100,
                len == 3 ==> scale == 1 && pow10(len as nat) == 1000,
        ;
        assert(whole * 1000 <= MAX_WHOLE * 1000) by (nonlinear_arith)
            requires
                whole <= MAX_WHOLE,
        ;
        if n - f_start > 3 {
            assert(ft[3] == s@[f_start + 3]);
            assert(is_digit(ft[3]));
        }
    }
    Some(Measure { thousandths: whole * 1000 + frac * scale + up })
}

/// A date written `D/M/Y`: exactly three integers separated by slashes.
pub open spec fn date_value(s: Seq<char>) -> Option<Date> {
    let f = split(s, '/');
    if f.len() == 3 && i32_value(f[0]) is Some && i32_value(f[1]) is Some && i32_value(f[2]) is Some {
        Some(
            Date {
                day: i32_value(f[0])->Some_0,
                month: i32_value(f[1])->Some_0,
                year: i32_value(f[2])->Some_0,
            },
        )
    } else {
        None
    }
}

impl Date {
    /// Reads a `D/M/Y` date; anything else is a parse error.
    pub fn from_str(str: &str) -> (r: Result<Date, CatalogError>)
        ensures
            r matches Ok(d) ==> date_value(str@) == Some(d),
            r matches Err(e) ==> date_value(str@) is None && e == CatalogError::ParseError,
    {
        Date::from_chars(&chars_of(str))
    }

    pub fn from_chars(s: &Vec<char>) -> (r: Result<Date, CatalogError>)
        ensures
            r matches Ok(d) ==> date_value(s@) == Some(d),
            r matches Err(e) ==> date_value(s@) is None && e == CatalogError::ParseError,
    {
        let date = split_on(s, '/');
        proof {
            assert(views(date@).len() == date@.len());
        }
        if date.len() != 3 {
            return Err(CatalogError::ParseError);
        }
        proof {
            assert(views(date@)[0] == date@[0]@);
            assert(views(date@)[1] == date@[1]@);
            assert(views(date@)[2] == date@[2]@);
        }
        let day = parse_i32(&date[0]);
        let month = parse_i32(&date[1]);
        let year = parse_i32(&date[2]);
        match (day, month, year) {
            (Some(day), Some(month), Some(year)) => Ok(Date { day, month, year }),
            _ => Err(CatalogError::ParseError),
        }
    }
}

/// The non-empty trimmed pieces, in order.
pub open spec fn kept_pieces(parts: Seq<Seq<char>>) -> Seq<Seq<char>>
    decreases parts.len(),
{
    if parts.len() == 0 {
        parts
    } else if trim(parts.last()).len() == 0 {
        kept_pieces(parts.drop_last())
    } else {
        kept_pieces(parts.drop_last()).push(trim(parts.last()))
    }
}

/// The abilities written between the brackets: quotes dropped, split on
/// commas, each trimmed, empty ones left out.
pub open spec fn ability_list(content: Seq<char>) -> Seq<Seq<char>> {
    kept_pieces(split(without(content, '\''), ','))
}

fn abilities_from(content: &Vec<char>) -> (r: Vec<String>)
    ensures
        texts(r@) == ability_list(content@),
{
    let unquoted = remove_char(content, '\'');
    let parts = split_on(&unquoted, ',');
    let ghost pv = views(parts@);
    let mut r: Vec<String> = Vec::new();
    let mut k: usize = 0;
    while k < parts.len()
        invariant
            k <= parts@.len(),
            pv == views(parts@),
            pv == split(without(content@, '\''), ','),
            texts(r@) == kept_pieces(pv.subrange(0, k as int)),
        decreases parts@.len() - k,
    {
        proof {
            assert(pv.subrange(0, k + 1).drop_last() =~= pv.subrange(0, k as int));
            assert(pv[k as int] == parts@[k as int]@);
        }
        let t = trim_chars(&parts[k]);
        if t.len() > 0 {
            let ghost before = r@;
            r.push(string_of(&t));
            proof {
                assert(texts(r@) =~= texts(before).push(t@));
            }
        }
        k += 1;
    }
    proof {
        assert(pv.subrange(0, pv.len() as int) =~= pv);
    }
    r
}

/// An optional measure: empty means zero.
pub open spec fn measure_field(f: Seq<char>) -> Option<u64> {
    if f.len() == 0 {
        Some(0)
    } else {
        measure_value(f)
    }
}

/// An optional integer: empty means zero.
pub open spec fn rate_field(f: Seq<char>) -> Option<i32> {
    if f.len() == 0 {
        Some(0)
    } else {
        i32_value(f)
    }
}

/// An optional date: empty means the zero date.
pub open spec fn date_field(f: Seq<char>) -> Option<Date> {
    if f.len() == 0 {
        Some(Date { day: 0, month: 0, year: 0 })
    } else {
        date_value(f)
    }
}

/// The type list: the first type, and the second where it is not empty.
pub open spec fn types_of(first: Seq<char>, second: Seq<char>) -> Seq<Seq<char>> {
    if second.len() > 0 {
        seq![first, second]
    } else {
        seq![first]
    }
}

/// The number of comma-separated fields a record line must have once its
/// ability list is cut out.
pub const FIELD_COUNT: usize = 12;

/// The record that the fields `f` describe, with the given abilities.
#[verifier::opaque]
pub open spec fn record_of(f: Seq<Seq<char>>, abilities: Seq<Seq<char>>) -> Result<
    PokemonView,
    CatalogError,
> {
    if f.len() < FIELD_COUNT {
        Err(CatalogError::FieldCountError)
    } else if i32_value(f[0]) is None || i32_value(f[1]) is None || measure_field(f[7]) is None
        || measure_field(f[8]) is None || rate_field(f[9]) is None || date_field(f[11]) is None {
        Err(CatalogError::ParseError)
    } else {
        Ok(
            PokemonView {
                id: i32_value(f[0])->Some_0,
                generation: i32_value(f[1])->Some_0,
                name: f[2],
                description: f[3],
                types: types_of(f[4], f[5]),
                abilities,
                weight: measure_field(f[7])->Some_0,
                height: measure_field(f[8])->Some_0,
                capture_rate: rate_field(f[9])->Some_0,
                is_legendary: f[10] == seq!['1'],
                capture_date: date_field(f[11])->Some_0,
            },
        )
    }
}

/// The record a line describes. The ability list runs from the first `[` to
/// the first `]`; it is cut out, and the rest is split on commas.
#[verifier::opaque]
pub open spec fn parse_line(line: Seq<char>) -> Result<PokemonView, CatalogError> {
    match (first_index(line, '['), first_index(line, ']')) {
        (Some(open), Some(close)) => if open < close {
            record_of(
                split(line.subrange(0, open) + line.subrange(close + 1, line.len() as int), ','),
                ability_list(line.subrange(open + 1, close)),
            )
        } else {
            Err(CatalogError::FieldCountError)
        },
        _ => Err(CatalogError::FieldCountError),
    }
}

/// A parse result, with the record seen through its view.
pub open spec fn result_view(r: Result<Pokemon, CatalogError>) -> Result<PokemonView, CatalogError> {
    match r {
        Ok(p) => Ok(p@),
        Err(e) => Err(e),
    }
}

fn optional_measure(f: &Vec<char>) -> (r: Option<Measure>)
    ensures
        r matches Some(m) ==> measure_field(f@) == Some(m.thousandths),
        r is None ==> measure_field(f@) is None,
{
    if f.len() == 0 {
        Some(Measure { thousandths: 0 })
    } else {
        parse_measure(f)
    }
}

fn optional_i32(f: &Vec<char>) -> (r: Option<i32>)
    ensures
        r == rate_field(f@),
{
    if f.len() == 0 {
        Some(0)
    } else {
        parse_i32(f)
    }
}

fn optional_date(f: &Vec<char>) -> (r: Option<Date>)
    ensures
        r == date_field(f@),
{
    if f.len() == 0 {
        Some(Date { day: 0, month: 0, year: 0 })
    } else {
        match Date::from_chars(f) {
            Ok(d) => Some(d),
            Err(_) => None,
        }
    }
}

impl Pokemon {
    /// A record with every number zero, every text and list empty, and the
    /// zero date.
    pub fn new() -> (r: Pokemon)
        ensures
            r@ == (PokemonView {
                id: 0,
                generation: 0,
                name: Seq::empty(),
                description: Seq::empty(),
                types: Seq::empty(),
                abilities: Seq::empty(),
                weight: 0,
                height: 0,
                capture_rate: 0,
                is_legendary: false,
                capture_date: Date { day: 0, month: 0, year: 0 },
            }),
    {
        let r = Pokemon {
            id: 0,
            generation: 0,
            name: String::new(),
            description: String::new(),
            types: Vec::new(),
            abilities: Vec::new(),
            weight: Measure { thousandths: 0 },
            height: Measure { thousandths: 0 },
            capture_rate: 0,
            is_legendary: false,
            capture_date: Date { day: 0, month: 0, year: 0 },
        };
        proof {
            assert(texts(r.types@) =~= Seq::empty());
            assert(texts(r.abilities@) =~= Seq::empty());
        }
        r
    }

    /// Reads one record line.
    pub fn from_str(line: &str) -> (r: Result<Pokemon, CatalogError>)
        ensures
            result_view(r) == parse_line(line@),
    {
        Pokemon::from_chars(&chars_of(line))
    }

    /// Reads one record line given as characters.
    #[verifier::rlimit(40)]
    pub fn from_chars(line: &Vec<char>) -> (r: Result<Pokemon, CatalogError>)
        ensures
            result_view(r) == parse_line(line@),
    {
        reveal(parse_line);
        let idx = match find_char(line, '[') {
            Some(k) => k,
            None => {
                return Err(CatalogError::FieldCountError);
            },
        };
        let final_idx = match find_char(line, ']') {
            Some(k) => k,
            None => {
                return Err(CatalogError::FieldCountError);
            },
        };
        if final_idx <= idx {
            return Err(CatalogError::FieldCountError);
        }
        let mut new_line = slice_of(line, 0, idx);
        let n = line.len();
        let tail = slice_of(line, final_idx + 1, n);
        let mut k: usize = 0;
        let ghost head = new_line@;
        while k < tail.len()
            invariant
                k <= tail@.len(),
                new_line@ == head + tail@.subrange(0, k as int),
            decreases tail@.len() - k,
        {
            new_line.push(tail[k]);
            k += 1;
            proof {
                assert(new_line@ =~= head + tail@.subrange(0, k as int));
            }
        }
        proof {
            assert(tail@.subrange(0, tail@.len() as int) =~= tail@);
        }
        proof {
            assert(new_line@ =~= line@.subrange(0, idx as int) + line@.subrange(final_idx + 1, line@.len() as int));
        }
        let content = slice_of(line, idx + 1, final_idx);
        let abilities = abilities_from(&content);
        let fields = split_on(&new_line, ',');
        Pokemon::from_fields(&fields, abilities)
    }

    /// The record that the fields describe, with the given abilities.
    pub fn from_fields(fields: &Vec<Vec<char>>, abilities: Vec<String>) -> (r: Result<Pokemon, CatalogError>)
        ensures
            result_view(r) == record_of(views(fields@), texts(abilities@)),
    {
        reveal(record_of);
        let ghost f = views(fields@);
        if fields.len() < FIELD_COUNT {
            return Err(CatalogError::FieldCountError);
        }
        proof {
            assert forall|m: int| 0 <= m < FIELD_COUNT implies f[m] == #[trigger] fields@[m]@ by {}
        }
        let id = parse_i32(&fields[0]);
        let generation = parse_i32(&fields[1]);
        let weight = optional_measure(&fields[7]);
        let height = optional_measure(&fields[8]);
        let capture_rate = optional_i32(&fields[9]);
        let capture_date = optional_date(&fields[11]);
        match (id, generation, weight, height, capture_rate, capture_date) {
            (Some(id), Some(generation), Some(weight), Some(height), Some(capture_rate), Some(capture_date)) => {
                let mut types: Vec<String> = Vec::new();
                types.push(string_of(&fields[4]));
                if fields[5].len() > 0 {
                    types.push(string_of(&fields[5]));
                }
                let f10 = &fields[10];
                let is_legendary = f10.len() == 1 && f10[0] == '1';
                proof {
                    assert(texts(types@) =~= types_of(f[4], f[5]));
                    assert(is_legendary == (f[10] == seq!['1'])) by {
                        if f[10].len() == 1 && f[10][0] == '1' {
                            assert(f[10] =~= seq!['1']);
                        }
                    }
                }
                Ok(Pokemon {
                    id,
                    generation,
                    name: string_of(&fields[2]),
                    description: string_of(&fields[3]),
                    types,
                    abilities,
                    weight,
                    height,
                    capture_rate,
                    is_legendary,
                    capture_date,
                })
            },
            _ => Err(CatalogError::ParseError),
        }
    }
}

} // verus!

//! Loading a dataset from file text, and choosing the working subset.
use vstd::prelude::*;
use crate::record::{CatalogError, Pokemon, PokemonView, parse_line, texts};
use crate::text::{
    all_digits, chars_of, digits_value, is_digit, lemma_digits_prefix, split, split_on, trim, trim_chars,
    views,
};

verus! {

/// The records of the lines, skipping empty ones; the first failing line's
/// error otherwise.
pub open spec fn parse_lines(lines: Seq<Seq<char>>) -> Result<Seq<PokemonView>, CatalogError>
    decreases lines.len(),
{
    if lines.len() == 0 {
        Ok(Seq::empty())
    } else {
        match parse_lines(lines.drop_last()) {
            Err(e) => Err(e),
            Ok(rs) => if lines.last().len() == 0 {
                Ok(rs)
            } else {
                match parse_line(lines.last()) {
                    Ok(p) => Ok(rs.push(p)),
                    Err(e) => Err(e),
                }
            },
        }
    }
}

/// The dataset that file text describes: its first line is a header, each
/// further non-empty line one record.
pub open spec fn load(content: Seq<char>) -> Result<Seq<PokemonView>, CatalogError> {
    parse_lines(split(content, '\n').drop_first())
}

/// A list of records seen through their views.
pub open spec fn records_view(v: Seq<Pokemon>) -> Seq<PokemonView> {
    v.map_values(|p: Pokemon| p@)
}

pub open spec fn list_result_view(r: Result<Vec<Pokemon>, CatalogError>) -> Result<
    Seq<PokemonView>,
    CatalogError,
> {
    match r {
        Ok(v) => Ok(records_view(v@)),
        Err(e) => Err(e),
    }
}

fn copy_texts(v: &Vec<String>) -> (r: Vec<String>)
    ensures
        texts(r@) == texts(v@),
{
    let mut r: Vec<String> = Vec::new();
    let mut k: usize = 0;
    while k < v.len()
        invariant
            k <= v@.len(),
            texts(r@) == texts(v@.subrange(0, k as int)),
        decreases v@.len() - k,
    {
        let ghost before = r@;
        let x = v[k].clone();
        assert(x == v@[k as int]);
        r.push(x);
        k += 1;
        proof {
            assert(v@.subrange(0, k as int) =~= v@.subrange(0, k - 1).push(x));
            assert(texts(r@) =~= texts(before).push(x@));
            assert(texts(r@) =~= texts(v@.subrange(0, k as int)));
        }
    }
    proof {
        assert(v@.subrange(0, v@.len() as int) =~= v@);
    }
    r
}

impl Pokemon {
    /// An independent copy holding the same values.
    pub fn duplicate(&self) -> (r: Pokemon)
        ensures
            r@ == self@,
    {
        Pokemon {
            id: self.id,
            generation: self.generation,
            name: self.name.clone(),
            description: self.description.clone(),
            types: copy_texts(&self.types),
            abilities: copy_texts(&self.abilities),
            weight: self.weight,
            height: self.height,
            capture_rate: self.capture_rate,
            is_legendary: self.is_legendary,
            capture_date: self.capture_date,
        }
    }

    /// Reads a whole dataset from the text of its file.
    pub fn vec_from_file(content: &str) -> (r: Result<Vec<Pokemon>, CatalogError>)
        ensures
            list_result_view(r) == load(content@),
    {
        let cs = chars_of(content);
        let lines = split_on(&cs, '\n');
        let ghost lv = views(lines@);
        let mut pokemons: Vec<Pokemon> = Vec::new();
        let mut k: usize = 1;
        proof {
            assert(lv.drop_first().subrange(0, 0) =~= Seq::<Seq<char>>::empty());
            assert(records_view(pokemons@) =~= Seq::empty());
        }
        while k < lines.len()
            invariant
                1 <= k <= lines@.len() || (k == 1 && lines@.len() == 0),
                lv == views(lines@),
                lv == split(content@, '\n'),
                parse_lines(lv.drop_first().subrange(0, k - 1)) == Ok::<Seq<PokemonView>, CatalogError>(records_view(pokemons@)),
            decreases lines@.len() - k,
        {
            let ghost pre = lv.drop_first().subrange(0, k - 1);
            let ghost next = lv.drop_first().subrange(0, k as int);
            proof {
                assert(next.drop_last() =~= pre);
                assert(next.last() == lines@[k as int]@);
            }
            if lines[k].len() > 0 {
                match Pokemon::from_chars(&lines[k]) {
                    Ok(p) => {
                        let ghost before = pokemons@;
                        pokemons.push(p);
                        proof {
                            assert(records_view(pokemons@) =~= records_view(before).push(p@));
                        }
                    },
                    Err(e) => {
                        proof {
                            assert(parse_line(next.last()) == Err::<PokemonView, CatalogError>(e));
                            assert(parse_lines(next) == Err::<Seq<PokemonView>, CatalogError>(e));
                            lemma_parse_lines_err(lv.drop_first(), k as int);
                        }
                        return Err(e);
                    },
                }
            }
            k += 1;
        }
        proof {
            crate::text::lemma_split_nonempty(content@, '\n');
            assert(lv.drop_first().subrange(0, k - 1) =~= lv.drop_first());
        }
        Ok(pokemons)
    }
}

/// A failure on one line is the failure of every longer run of lines.
proof fn lemma_parse_lines_err(lines: Seq<Seq<char>>, k: int)
    requires
        1 <= k <= lines.len(),
        parse_lines(lines.subrange(0, k)) is Err,
    ensures
        parse_lines(lines) == parse_lines(lines.subrange(0, k)),
    decreases lines.len() - k,
{
    if k < lines.len() {
        assert(lines.subrange(0, k + 1).drop_last() =~= lines.subrange(0, k));
        lemma_parse_lines_err(lines, k + 1);
    } else {
        assert(lines.subrange(0, k) =~= lines);
    }
}

/// The token that ends a list of identifiers.
pub open spec fn is_terminator(t: Seq<char>) -> bool {
    trim(t) == "FIM"@
}

/// The 0-based position that an identifier token names among `n` records:
/// a decimal number from 1 to `n`, white space around it allowed.
pub open spec fn index_value(t: Seq<char>, n: nat) -> Option<int> {
    let d = trim(t);
    if d.len() > 0 && all_digits(d) && 1 <= digits_value(d) <= n {
        Some(digits_value(d) - 1)
    } else {
        None
    }
}

/// How many tokens come before the first terminator.
pub open spec fn stop_at(tokens: Seq<Seq<char>>) -> int
    decreases tokens.len(),
{
    if tokens.len() == 0 || is_terminator(tokens[0]) {
        0
    } else {
        1 + stop_at(tokens.drop_first())
    }
}

/// The records that the identifier tokens name, in token order.
pub open spec fn chosen(data: Seq<PokemonView>, tokens: Seq<Seq<char>>) -> Result<
    Seq<PokemonView>,
    CatalogError,
>
    decreases tokens.len(),
{
    if tokens.len() == 0 {
        Ok(Seq::empty())
    } else {
        match chosen(data, tokens.drop_last()) {
            Err(e) => Err(e),
            Ok(rs) => match index_value(tokens.last(), data.len()) {
                Some(i) => Ok(rs.push(data[i])),
                None => Err(CatalogError::IndexError),
            },
        }
    }
}

/// The working subset: the records named by the tokens before the first
/// terminator, or an index error where one of them names none.
pub open spec fn selection(data: Seq<PokemonView>, tokens: Seq<Seq<char>>) -> Result<
    Seq<PokemonView>,
    CatalogError,
> {
    chosen(data, tokens.subrange(0, stop_at(tokens)))
}

proof fn lemma_stop_at(tokens: Seq<Seq<char>>, k: int)
    requires
        0 <= k < tokens.len(),
    ensures
        stop_at(tokens.subrange(k, tokens.len() as int)) == if is_terminator(tokens[k]) {
            0
        } else {
            1 + stop_at(tokens.subrange(k + 1, tokens.len() as int))
        },
{
    assert(tokens.subrange(k, tokens.len() as int).drop_first() =~= tokens.subrange(k + 1, tokens.len() as int));
}

proof fn lemma_stop_at_nonneg(tokens: Seq<Seq<char>>)
    ensures
        0 <= stop_at(tokens) <= tokens.len(),
    decreases tokens.len(),
{
    if tokens.len() > 0 {
        lemma_stop_at_nonneg(tokens.drop_first());
    }
}

fn is_terminator_token(t: &Vec<char>) -> (r: bool)
    ensures
        r == is_terminator(t@),
{
    let d = trim_chars(t);
    proof {
        reveal_strlit("FIM");
    }
    let r = d.len() == 3 && d[0] == 'F' && d[1] == 'I' && d[2] == 'M';
    proof {
        if r {
            assert(d@ =~= "FIM"@);
        }
    }
    r
}

/// Reads an identifier token as a 0-based position among `n` records.
pub fn index_of_token(t: &Vec<char>, n: usize) -> (r: Option<usize>)
    ensures
        r matches Some(i) ==> index_value(t@, n as nat) == Some(i as int),
        r is None ==> index_value(t@, n as nat) is None,
{
    let d = trim_chars(t);
    let len = d.len();
    if len == 0 {
        return None;
    }
    let mut acc: u128 = 0;
    let mut k: usize = 0;
    while k < len
        invariant
            k <= len == d@.len(),
            d@ == trim(t@),
            all_digits(d@.subrange(0, k as int)),
            acc == digits_value(d@.subrange(0, k as int)),
            acc <= n,
        decreases len - k,
    {
        let c = d[k];
        proof {
            assert(d@.subrange(0, k + 1).drop_last() =~= d@.subrange(0, k as int));
        }
        if c < '0' || c > '9' {
            proof {
                assert(!is_digit(d@[k as int]));
                assert(!all_digits(d@));
            }
            return None;
        }
        acc = acc * 10 + (c as u32 - '0' as u32) as u128;
        proof {
            assert(all_digits(d@.subrange(0, k + 1)));
        }
        if acc > n as u128 {
            proof {
                assert(acc == digits_value(d@.subrange(0, k + 1)));
                if all_digits(d@) {
                    lemma_digits_prefix(d@, k + 1);
                    assert(digits_value(d@) > n);
                }
            }
            return None;
        }
        k += 1;
    }
    proof {
        assert(d@.subrange(0, len as int) =~= d@);
    }
    if acc == 0 {
        return None;
    }
    Some((acc - 1) as usize)
}

/// Copies the records named by the identifier tokens, in token order, up to
/// the first terminator.
pub fn select(dataset: &Vec<Pokemon>, tokens: &Vec<String>) -> (r: Result<Vec<Pokemon>, CatalogError>)
    ensures
        list_result_view(r) == selection(records_view(dataset@), texts(tokens@)),
{
    let ghost data = records_view(dataset@);
    let ghost tv = texts(tokens@);
    let n = dataset.len();
    let mut out: Vec<Pokemon> = Vec::new();
    let mut k: usize = 0;
    proof {
        assert(tv.subrange(0, 0) =~= Seq::<Seq<char>>::empty());
        assert(records_view(out@) =~= Seq::empty());
        assert(tv.subrange(0, tv.len() as int) =~= tv);
    }
    while k < tokens.len()
        invariant_except_break
            k <= tokens@.len(),
            n == dataset@.len(),
            data == records_view(dataset@),
            tv == texts(tokens@),
            stop_at(tv) == k + stop_at(tv.subrange(k as int, tv.len() as int)),
            chosen(data, tv.subrange(0, k as int)) == Ok::<Seq<PokemonView>, CatalogError>(records_view(out@)),
        ensures
            k <= tokens@.len(),
            stop_at(tv) == k,
            chosen(data, tv.subrange(0, k as int)) == Ok::<Seq<PokemonView>, CatalogError>(records_view(out@)),
        decreases tokens@.len() - k,
    {
        let t = chars_of(tokens[k].as_str());
        proof {
            assert(tv[k as int] == t@);
            lemma_stop_at(tv, k as int);
            assert(tv.subrange(0, k + 1).drop_last() =~= tv.subrange(0, k as int));
        }
        if is_terminator_token(&t) {
            break;
        }
        match index_of_token(&t, n) {
            Some(i) => {
                let ghost before = out@;
                out.push(dataset[i].duplicate());
                proof {
                    assert(records_view(out@) =~= records_view(before).push(data[i as int]));
                }
            },
            None => {
                proof {
                    assert(chosen(data, tv.subrange(0, k + 1)) == Err::<Seq<PokemonView>, CatalogError>(CatalogError::IndexError));
                    lemma_stop_at_nonneg(tv.subrange(k + 1, tv.len() as int));
                    assert(tv.subrange(0, stop_at(tv)).subrange(0, k + 1) =~= tv.subrange(0, k + 1));
                    lemma_chosen_err(data, tv.subrange(0, stop_at(tv)), k + 1);
                }
                return Err(CatalogError::IndexError);
            },
        }
        k += 1;
    }
    Ok(out)
}

/// Once the choice fails on a prefix of the tokens, it fails on all of them.
proof fn lemma_chosen_err(data: Seq<PokemonView>, tokens: Seq<Seq<char>>, k: int)
    requires
        1 <= k <= tokens.len(),
        chosen(data, tokens.subrange(0, k)) == Err::<Seq<PokemonView>, CatalogError>(CatalogError::IndexError),
    ensures
        chosen(data, tokens) == Err::<Seq<PokemonView>, CatalogError>(CatalogError::IndexError),
    decreases tokens.len() - k,
{
    if k < tokens.len() {
        assert(tokens.subrange(0, k + 1).drop_last() =~= tokens.subrange(0, k));
        lemma_chosen_err(data, tokens, k + 1);
    } else {
        assert(tokens.subrange(0, k) =~= tokens);
    }
}

} // verus!

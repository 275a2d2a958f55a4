//! The canonical one-line rendering of a record.
use vstd::prelude::*;
use crate::record::{Pokemon, PokemonView, texts};
use crate::text::{chars_of, string_of};

verus! {

pub open spec fn digit_char(d: int) -> char {
    if d == 0 { '0' }
    else if d == 1 { '1' }
    else if d == 2 { '2' }
    else if d == 3 { '3' }
    else if d == 4 { '4' }
    else if d == 5 { '5' }
    else if d == 6 { '6' }
    else if d == 7 { '7' }
    else if d == 8 { '8' }
    else { '9' }
}

fn digit_of(d: u64) -> (c: char)
    requires
        d < 10,
    ensures
        c == digit_char(d as int),
{
    if d == 0 { '0' }
    else if d == 1 { '1' }
    else if d == 2 { '2' }
    else if d == 3 { '3' }
    else if d == 4 { '4' }
    else if d == 5 { '5' }
    else if d == 6 { '6' }
    else if d == 7 { '7' }
    else if d == 8 { '8' }
    else { '9' }
}

/// The decimal digits of `n`, without leading zeros.
pub open spec fn nat_text(n: nat) -> Seq<char>
    decreases n,
{
    if n < 10 {
        seq![digit_char(n as int)]
    } else {
        nat_text(n / 10).push(digit_char((n % 10) as int))
    }
}

/// `n` in decimal, with a leading `-` when negative.
pub open spec fn int_text(n: int) -> Seq<char> {
    if n < 0 {
        seq!['-'] + nat_text((-n) as nat)
    } else {
        nat_text(n as nat)
    }
}

/// `n` in decimal, padded with a zero to two characters.
pub open spec fn two_digit_text(n: int) -> Seq<char> {
    if 0 <= n < 10 {
        seq!['0'] + nat_text(n as nat)
    } else {
        int_text(n)
    }
}

/// A measure in thousandths rounded to tenths, halves rounded up.
pub open spec fn tenths_of(thousandths: nat) -> nat {
    thousandths / 100 + if thousandths % 100 >= 50 { 1nat } else { 0nat }
}

/// A measure with exactly one fraction digit.
pub open spec fn measure_text(thousandths: nat) -> Seq<char> {
    nat_text(tenths_of(thousandths) / 10) + seq!['.', digit_char((tenths_of(thousandths) % 10) as int)]
}

/// Each item in single quotes, joined by `, `.
pub open spec fn quoted_list(items: Seq<Seq<char>>) -> Seq<char>
    decreases items.len(),
{
    if items.len() == 0 {
        Seq::empty()
    } else if items.len() == 1 {
        seq!['\''] + items[0] + seq!['\'']
    } else {
        quoted_list(items.drop_last()) + seq![',', ' ', '\''] + items.last() + seq!['\'']
    }
}

pub open spec fn bool_text(b: bool) -> Seq<char> {
    if b {
        seq!['t', 'r', 'u', 'e']
    } else {
        seq!['f', 'a', 'l', 's', 'e']
    }
}

/// `[#id -> name: description - ['t1', 't2'] - ['a1', ...] - W.Wkg - H.Hm - R% - legendary - G gen] - DD/MM/Y`
pub open spec fn render(p: PokemonView) -> Seq<char> {
    "[#"@ + int_text(p.id as int) + " -> "@ + p.name + ": "@ + p.description + " - ["@ + quoted_list(p.types)
        + "] - ["@ + quoted_list(p.abilities) + "] - "@ + measure_text(p.weight as nat) + "kg - "@
        + measure_text(p.height as nat) + "m - "@ + int_text(p.capture_rate as int) + "% - "@
        + bool_text(p.is_legendary) + " - "@ + int_text(p.generation as int) + " gen] - "@
        + two_digit_text(p.capture_date.day as int) + "/"@ + two_digit_text(p.capture_date.month as int)
        + "/"@ + int_text(p.capture_date.year as int)
}

fn push_text(out: &mut Vec<char>, s: &Vec<char>)
    ensures
        final(out)@ == old(out)@ + s@,
{
    let ghost start = out@;
    let mut k: usize = 0;
    while k < s.len()
        invariant
            k <= s@.len(),
            out@ == start + s@.subrange(0, k as int),
        decreases s@.len() - k,
    {
        out.push(s[k]);
        k += 1;
        proof {
            assert(out@ =~= start + s@.subrange(0, k as int));
        }
    }
    proof {
        assert(s@.subrange(0, s@.len() as int) =~= s@);
    }
}

fn push_str(out: &mut Vec<char>, s: &str)
    ensures
        final(out)@ == old(out)@ + s@,
{
    let cs = chars_of(s);
    push_text(out, &cs);
}

fn push_nat(out: &mut Vec<char>, n: u64)
    ensures
        final(out)@ == old(out)@ + nat_text(n as nat),
    decreases n,
{
    if n >= 10 {
        push_nat(out, n / 10);
    }
    out.push(digit_of(n % 10));
    proof {
        if n >= 10 {
            assert(old(out)@ + nat_text(n as nat) =~= old(out)@ + nat_text((n / 10) as nat) + seq![digit_char((n % 10) as int)]);
        } else {
            assert(old(out)@ + nat_text(n as nat) =~= old(out)@.push(digit_char(n as int)));
        }
    }
}

fn push_int(out: &mut Vec<char>, n: i32)
    ensures
        final(out)@ == old(out)@ + int_text(n as int),
{
    if n < 0 {
        out.push('-');
        let m: u64 = (0 - n as i64) as u64;
        push_nat(out, m);
        proof {
            assert(old(out)@ + int_text(n as int) =~= old(out)@.push('-') + nat_text(m as nat));
        }
    } else {
        push_nat(out, n as u64);
    }
}

fn push_two_digits(out: &mut Vec<char>, n: i32)
    ensures
        final(out)@ == old(out)@ + two_digit_text(n as int),
{
    if 0 <= n && n < 10 {
        out.push('0');
        push_nat(out, n as u64);
        proof {
            assert(old(out)@ + two_digit_text(n as int) =~= old(out)@.push('0') + nat_text(n as nat));
        }
    } else {
        push_int(out, n);
    }
}

fn push_measure(out: &mut Vec<char>, thousandths: u64)
    ensures
        final(out)@ == old(out)@ + measure_text(thousandths as nat),
{
    let tenths: u64 = thousandths / 100 + if thousandths % 100 >= 50 { 1 } else { 0 };
    push_nat(out, tenths / 10);
    out.push('.');
    out.push(digit_of(tenths % 10));
    proof {
        assert(tenths == tenths_of(thousandths as nat));
        assert(final(out)@ =~= old(out)@ + measure_text(thousandths as nat));
    }
}

fn push_quoted(out: &mut Vec<char>, items: &Vec<String>)
    ensures
        final(out)@ == old(out)@ + quoted_list(texts(items@)),
{
    let ghost start = out@;
    let ghost all = texts(items@);
    let mut k: usize = 0;
    while k < items.len()
        invariant
            k <= items@.len(),
            all == texts(items@),
            out@ == start + quoted_list(all.subrange(0, k as int)),
        decreases items@.len() - k,
    {
        let ghost before = out@;
        if k > 0 {
            push_str(out, ", ");
        }
        out.push('\'');
        push_str(out, items[k].as_str());
        out.push('\'');
        proof {
            let pre = all.subrange(0, k as int);
            let next = all.subrange(0, k + 1);
            assert(next.drop_last() =~= pre);
            assert(all[k as int] == items@[k as int]@);
            if k == 0 {
                assert(pre.len() == 0);
                assert(out@ =~= start + quoted_list(next));
            } else {
                assert(", "@ =~= seq![',', ' ']) by {
                    reveal_strlit(", ");
                }
                assert(out@ =~= start + quoted_list(next));
            }
        }
        k += 1;
    }
    proof {
        assert(all.subrange(0, items@.len() as int) =~= all);
    }
}

impl Pokemon {
    /// The record's canonical line.
    pub fn to_string(&self) -> (r: String)
        ensures
            r@ == render(self@),
    {
        let mut out: Vec<char> = Vec::new();
        push_str(&mut out, "[#");
        push_int(&mut out, self.id);
        push_str(&mut out, " -> ");
        push_text(&mut out, &chars_of(self.name.as_str()));
        push_str(&mut out, ": ");
        push_text(&mut out, &chars_of(self.description.as_str()));
        push_str(&mut out, " - [");
        push_quoted(&mut out, &self.types);
        push_str(&mut out, "] - [");
        push_quoted(&mut out, &self.abilities);
        push_str(&mut out, "] - ");
        push_measure(&mut out, self.weight.thousandths);
        push_str(&mut out, "kg - ");
        push_measure(&mut out, self.height.thousandths);
        push_str(&mut out, "m - ");
        push_int(&mut out, self.capture_rate);
        push_str(&mut out, "% - ");
        if self.is_legendary {
            push_str(&mut out, "true");
        } else {
            push_str(&mut out, "false");
        }
        push_str(&mut out, " - ");
        push_int(&mut out, self.generation);
        push_str(&mut out, " gen] - ");
        push_two_digits(&mut out, self.capture_date.day);
        push_str(&mut out, "/");
        push_two_digits(&mut out, self.capture_date.month);
        push_str(&mut out, "/");
        push_int(&mut out, self.capture_date.year);
        proof {
            assert("true"@ =~= bool_text(true)) by {
                reveal_strlit("true");
            }
            assert("false"@ =~= bool_text(false)) by {
                reveal_strlit("false");
            }
            assert(out@ =~= render(self@));
        }
        string_of(&out)
    }
}

} // verus!

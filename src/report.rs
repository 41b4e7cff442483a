//! Collapsed-stack report text: one line per stack, its frame names
//! innermost first joined by `;`, a space, and its signed total.

use vstd::prelude::*;

verus! {

/// The character of decimal digit `d`.
pub open spec fn digit_char(d: nat) -> char {
    if d == 0 {
        '0'
    } else if d == 1 {
        '1'
    } else if d == 2 {
        '2'
    } else if d == 3 {
        '3'
    } else if d == 4 {
        '4'
    } else if d == 5 {
        '5'
    } else if d == 6 {
        '6'
    } else if d == 7 {
        '7'
    } else if d == 8 {
        '8'
    } else {
        '9'
    }
}

/// The decimal digits of `n`, most significant first, without leading zeros.
pub open spec fn digits_of(n: nat) -> Seq<char>
    decreases n,
{
    if n < 10 {
        seq![digit_char(n)]
    } else {
        digits_of(n / 10).push(digit_char(n % 10))
    }
}

/// The decimal text of `w`, with a leading `-` when negative.
pub open spec fn decimal_of(w: int) -> Seq<char> {
    if w < 0 {
        seq!['-'] + digits_of((-w) as nat)
    } else {
        digits_of(w as nat)
    }
}

/// A frame's text: its name, or nothing when it has none.
pub open spec fn frame_text(name: Option<Seq<char>>) -> Seq<char> {
    match name {
        Some(n) => n,
        None => Seq::empty(),
    }
}

/// Frame texts joined by `;`.
pub open spec fn joined(names: Seq<Option<Seq<char>>>) -> Seq<char>
    decreases names.len(),
{
    if names.len() == 0 {
        Seq::empty()
    } else if names.len() == 1 {
        frame_text(names[0])
    } else {
        joined(names.drop_last()) + seq![';'] + frame_text(names.last())
    }
}

/// The report line of a stack whose frames have `names` and whose total is
/// `w`.
pub open spec fn line_text(names: Seq<Option<Seq<char>>>, w: int) -> Seq<char> {
    joined(names) + seq![' '] + decimal_of(w) + seq!['\n']
}

/// The views of optional names.
pub open spec fn name_views(names: Seq<Option<String>>) -> Seq<Option<Seq<char>>> {
    names.map_values(|n: Option<String>| match n {
        Some(s) => Some(s@),
        None => None,
    })
}

/// The report text of several stacks, their lines in the given order.
pub open spec fn report_text(lines: Seq<(Vec<Option<String>>, i128)>) -> Seq<char>
    decreases lines.len(),
{
    if lines.len() == 0 {
        Seq::empty()
    } else {
        report_text(lines.drop_last()) + line_text(name_views(lines.last().0@), lines.last().1 as int)
    }
}

/// Relies on str::chars, collected into a vector: the characters of `s`.
#[verifier::external_body]
fn chars_of(s: &str) -> (r: Vec<char>)
    ensures
        r@ == s@,
{
    s.chars().collect()
}

/// Relies on String's FromIterator<char>: a string of exactly these
/// characters.
#[verifier::external_body]
fn string_of(v: &Vec<char>) -> (r: String)
    ensures
        r@ == v@,
{
    v.iter().collect()
}

fn digit(d: u128) -> (c: char)
    requires
        d < 10,
    ensures
        c == digit_char(d as nat),
{
    if d == 0 {
        '0'
    } else if d == 1 {
        '1'
    } else if d == 2 {
        '2'
    } else if d == 3 {
        '3'
    } else if d == 4 {
        '4'
    } else if d == 5 {
        '5'
    } else if d == 6 {
        '6'
    } else if d == 7 {
        '7'
    } else if d == 8 {
        '8'
    } else {
        '9'
    }
}

fn push_digits(n: u128, out: &mut Vec<char>)
    ensures
        final(out)@ == old(out)@ + digits_of(n as nat),
    decreases n,
{
    if n >= 10 {
        push_digits(n / 10, out);
    }
    out.push(digit(n % 10));
    proof {
        if n >= 10 {
            assert(digits_of(n as nat) == digits_of((n / 10) as nat).push(digit_char((n % 10) as nat)));
        }
    }
    assert(out@ =~= old(out)@ + digits_of(n as nat));
}

fn push_decimal(w: i128, out: &mut Vec<char>)
    ensures
        final(out)@ == old(out)@ + decimal_of(w as int),
{
    if w < 0 {
        out.push('-');
        let mag: u128 = ((-(w + 1)) as u128) + 1;
        push_digits(mag, out);
        assert(out@ =~= old(out)@ + decimal_of(w as int));
    } else {
        push_digits(w as u128, out);
    }
}

fn push_line(names: &Vec<Option<String>>, w: i128, out: &mut Vec<char>)
    ensures
        final(out)@ == old(out)@ + line_text(name_views(names@), w as int),
{
    let ghost nv = name_views(names@);
    let ghost start = out@;
    let mut i: usize = 0;
    while i < names.len()
        invariant
            i <= names@.len(),
            nv == name_views(names@),
            out@ == start + joined(nv.take(i as int)),
        decreases names@.len() - i,
    {
        if i > 0 {
            out.push(';');
        }
        match &names[i] {
            Some(s) => {
                let cs = chars_of(s.as_str());
                let mut k: usize = 0;
                let ghost mid = out@;
                while k < cs.len()
                    invariant
                        k <= cs@.len(),
                        out@ == mid + cs@.take(k as int),
                    decreases cs@.len() - k,
                {
                    out.push(cs[k]);
                    k = k + 1;
                    assert(out@ =~= mid + cs@.take(k as int));
                }
                assert(cs@.take(k as int) =~= cs@);
            },
            None => {},
        }
        proof {
            let t = nv.take(i + 1);
            assert(t.drop_last() =~= nv.take(i as int));
            assert(t.last() == nv[i as int]);
            assert(nv[i as int] == (match names@[i as int] {
                Some(s) => Some(s@),
                None => None,
            }));
            if i == 0 {
                assert(nv.take(0) =~= Seq::<Option<Seq<char>>>::empty());
            }
        }
        i = i + 1;
        assert(out@ =~= start + joined(nv.take(i as int)));
    }
    assert(nv.take(i as int) =~= nv);
    out.push(' ');
    push_decimal(w, out);
    out.push('\n');
    assert(out@ =~= start + line_text(nv, w as int));
}

/// The report line of one stack: its frame names innermost first, joined
/// by `;`, a frame without a name leaving its place empty; then a space,
/// the total in decimal, and a newline.
pub fn collapsed_line(names: &Vec<Option<String>>, total: i128) -> (r: String)
    ensures
        r@ == line_text(name_views(names@), total as int),
{
    let mut out: Vec<char> = Vec::new();
    push_line(names, total, &mut out);
    assert(out@ =~= line_text(name_views(names@), total as int));
    string_of(&out)
}

/// The report of a snapshot whose frames have been resolved to names: the
/// line of each stack, in the order given.
pub fn produce_profile(lines: &Vec<(Vec<Option<String>>, i128)>) -> (r: String)
    ensures
        r@ == report_text(lines@),
{
    let mut out: Vec<char> = Vec::new();
    let mut i: usize = 0;
    while i < lines.len()
        invariant
            i <= lines@.len(),
            out@ == report_text(lines@.take(i as int)),
        decreases lines@.len() - i,
    {
        push_line(&lines[i].0, lines[i].1, &mut out);
        proof {
            let t = lines@.take(i + 1);
            assert(t.drop_last() =~= lines@.take(i as int));
            assert(t.last() == lines@[i as int]);
        }
        i = i + 1;
    }
    assert(lines@.take(i as int) =~= lines@);
    string_of(&out)
}

} // verus!

//! The presenter: render the evaluated birthdays as one text block, a
//! paragraph per result, each line `name: DD.MM.YYYY (status)` where the
//! status says in how many days the birthday comes, that it is today, or
//! how many days ago it was.

use vstd::prelude::*;
use vstd::string::StrSliceExecFns;
use vstd::string::StringExecFns;

use crate::date::Date;
use crate::evaluate::EvaluatedBirthday;

verus! {

/// Spec-level image of an evaluated birthday.
pub struct EvaluatedView {
    pub name: Seq<char>,
    pub birth_date: Date,
    pub occurrence_date: Date,
    pub days_offset: i64,
}

impl View for EvaluatedBirthday {
    type V = EvaluatedView;

    open spec fn view(&self) -> EvaluatedView {
        EvaluatedView {
            name: self.name@,
            birth_date: self.birth_date,
            occurrence_date: self.occurrence_date,
            days_offset: self.days_offset,
        }
    }
}

/// The views of a vector of evaluated birthdays.
pub open spec fn views_of_evaluated(v: Seq<EvaluatedBirthday>) -> Seq<EvaluatedView> {
    v.map_values(|e: EvaluatedBirthday| e@)
}

/// The character of one decimal digit.
pub open spec fn spec_digit_char(n: int) -> char {
    if n == 0 {
        '0'
    } else if n == 1 {
        '1'
    } else if n == 2 {
        '2'
    } else if n == 3 {
        '3'
    } else if n == 4 {
        '4'
    } else if n == 5 {
        '5'
    } else if n == 6 {
        '6'
    } else if n == 7 {
        '7'
    } else if n == 8 {
        '8'
    } else {
        '9'
    }
}

/// The decimal digits of a non-negative number, most significant first.
pub open spec fn spec_digits(n: int) -> Seq<char>
    decreases n,
{
    if n < 10 {
        seq![spec_digit_char(n)]
    } else {
        spec_digits(n / 10) + seq![spec_digit_char(n % 10)]
    }
}

/// Two-digit rendering: a single-digit number gets a leading zero.
pub open spec fn spec_pad2(n: int) -> Seq<char> {
    if 0 <= n < 10 {
        seq!['0'] + spec_digits(n)
    } else {
        spec_digits(n)
    }
}

/// Year rendering: zero-padded to four digits; a negative year keeps a
/// leading minus sign.
pub open spec fn spec_year4(y: int) -> Seq<char> {
    if y < 0 {
        seq!['-'] + spec_digits(-y)
    } else if y < 10 {
        seq!['0', '0', '0'] + spec_digits(y)
    } else if y < 100 {
        seq!['0', '0'] + spec_digits(y)
    } else if y < 1000 {
        seq!['0'] + spec_digits(y)
    } else {
        spec_digits(y)
    }
}

/// A date as `DD.MM.YYYY`.
pub open spec fn spec_date_string(d: Date) -> Seq<char> {
    spec_pad2(d.day as int) + seq!['.'] + spec_pad2(d.month as int) + seq!['.'] + spec_year4(
        d.year as int,
    )
}

fn digit_str(d: u64) -> (r: &'static str)
    requires
        d < 10,
    ensures
        r@ == seq![spec_digit_char(d as int)],
{
    proof {
        reveal_strlit("0");
        reveal_strlit("1");
        reveal_strlit("2");
        reveal_strlit("3");
        reveal_strlit("4");
        reveal_strlit("5");
        reveal_strlit("6");
        reveal_strlit("7");
        reveal_strlit("8");
        reveal_strlit("9");
    }
    let r = match d {
        0 => "0",
        1 => "1",
        2 => "2",
        3 => "3",
        4 => "4",
        5 => "5",
        6 => "6",
        7 => "7",
        8 => "8",
        _ => "9",
    };
    proof {
        assert(r@ =~= seq![spec_digit_char(d as int)]);
    }
    r
}

fn push_u64(out: &mut String, n: u64)
    ensures
        final(out)@ == old(out)@ + spec_digits(n as int),
    decreases n,
{
    if n < 10 {
        out.append(digit_str(n));
    } else {
        push_u64(out, n / 10);
        out.append(digit_str(n % 10));
        proof {
            assert(final(out)@ =~= old(out)@ + spec_digits(n as int));
        }
    }
}

fn push_pad2(out: &mut String, n: u32)
    ensures
        final(out)@ == old(out)@ + spec_pad2(n as int),
{
    proof {
        reveal_strlit("0");
    }
    if n < 10 {
        out.append("0");
        push_u64(out, n as u64);
        proof {
            assert("0"@ =~= seq!['0']);
            assert(final(out)@ =~= old(out)@ + spec_pad2(n as int));
        }
    } else {
        push_u64(out, n as u64);
    }
}

fn push_year4(out: &mut String, y: i32)
    ensures
        final(out)@ == old(out)@ + spec_year4(y as int),
{
    proof {
        reveal_strlit("-");
        reveal_strlit("000");
        reveal_strlit("00");
        reveal_strlit("0");
    }
    if y < 0 {
        out.append("-");
        let mag: u64 = (-(y as i64)) as u64;
        push_u64(out, mag);
        proof {
            assert("-"@ =~= seq!['-']);
            assert(final(out)@ =~= old(out)@ + spec_year4(y as int));
        }
    } else if y < 10 {
        out.append("000");
        push_u64(out, y as u64);
        proof {
            assert("000"@ =~= seq!['0', '0', '0']);
            assert(final(out)@ =~= old(out)@ + spec_year4(y as int));
        }
    } else if y < 100 {
        out.append("00");
        push_u64(out, y as u64);
        proof {
            assert("00"@ =~= seq!['0', '0']);
            assert(final(out)@ =~= old(out)@ + spec_year4(y as int));
        }
    } else if y < 1000 {
        out.append("0");
        push_u64(out, y as u64);
        proof {
            assert("0"@ =~= seq!['0']);
            assert(final(out)@ =~= old(out)@ + spec_year4(y as int));
        }
    } else {
        push_u64(out, y as u64);
    }
}

/// A date rendered as `DD.MM.YYYY`.
pub fn format_date(d: Date) -> (r: String)
    ensures
        r@ == spec_date_string(d),
{
    proof {
        reveal_strlit(".");
    }
    let mut out = String::new();
    push_pad2(&mut out, d.day);
    out.append(".");
    push_pad2(&mut out, d.month);
    out.append(".");
    push_year4(&mut out, d.year);
    proof {
        assert("."@ =~= seq!['.']);
        assert(out@ =~= spec_date_string(d));
    }
    out
}

/// The status phrase of one result.
pub open spec fn spec_status(off: i64) -> Seq<char> {
    if off > 0 {
        "in "@ + spec_digits(off as int) + " days"@
    } else if off == 0 {
        "TODAY - HAPPY BIRTHDAY!!!!"@
    } else {
        spec_digits(-(off as int)) + " days ago - Birthday is in the past"@
    }
}

/// One result's paragraph, closing blank line included.
pub open spec fn spec_line(ev: EvaluatedView) -> Seq<char> {
    ev.name + ": "@ + spec_date_string(ev.occurrence_date) + " ("@ + spec_status(ev.days_offset)
        + ")\n\n"@
}

/// The whole message: a heading, then one paragraph per result in order.
pub open spec fn spec_message(rs: Seq<EvaluatedView>) -> Seq<char>
    decreases rs.len(),
{
    if rs.len() == 0 {
        "Birthdays:\n\n"@
    } else {
        spec_message(rs.drop_last()) + spec_line(rs.last())
    }
}

/// Render the results into the message text shown to the user, heading
/// first, then one paragraph per result in the given order. The one
/// excluded offset is the smallest machine integer, whose magnitude has
/// no i64 form; the evaluator only ever produces offsets in 0..=731.
pub fn build_message(results: &Vec<EvaluatedBirthday>) -> (r: String)
    requires
        forall|i: int|
            0 <= i < results@.len() ==> (#[trigger] results@[i]).days_offset != i64::MIN,
    ensures
        r@ == spec_message(views_of_evaluated(results@)),
{
    let ghost views = views_of_evaluated(results@);
    let mut msg = String::from_str("Birthdays:\n\n");
    let mut i: usize = 0;
    proof {
        assert(views.subrange(0, 0) =~= Seq::<EvaluatedView>::empty());
    }
    while i < results.len()
        invariant
            i <= results@.len(),
            views == views_of_evaluated(results@),
            forall|k: int|
                0 <= k < results@.len() ==> (#[trigger] results@[k]).days_offset != i64::MIN,
            msg@ == spec_message(views.subrange(0, i as int)),
        decreases results@.len() - i,
    {
        let ghost msg0 = msg@;
        msg.append(results[i].name.as_str());
        msg.append(": ");
        let date_text = format_date(results[i].occurrence_date);
        msg.append(date_text.as_str());
        msg.append(" (");
        let off = results[i].days_offset;
        if off > 0 {
            msg.append("in ");
            push_u64(&mut msg, off as u64);
            msg.append(" days");
        } else if off == 0 {
            msg.append("TODAY - HAPPY BIRTHDAY!!!!");
        } else {
            let mag: u64 = (-off) as u64;
            push_u64(&mut msg, mag);
            msg.append(" days ago - Birthday is in the past");
        }
        msg.append(")\n\n");
        proof {
            assert(views.subrange(0, i + 1).drop_last() =~= views.subrange(0, i as int));
            assert(views.subrange(0, i + 1).last() == views[i as int]);
            assert(msg@ =~= msg0 + spec_line(views[i as int]));
        }
        i = i + 1;
    }
    proof {
        assert(views.subrange(0, views.len() as int) =~= views);
    }
    msg
}

} // verus!

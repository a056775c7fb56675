use vstd::prelude::*;
use vstd::string::*;
use crate::analyze::{Analysis, types_view};

verus! {

pub open spec fn digit_char(d: nat) -> char {
    if d == 0 { '0' }
    else if d == 1 { '1' }
    else if d == 2 { '2' }
    else if d == 3 { '3' }
    else if d == 4 { '4' }
    else if d == 5 { '5' }
    else if d == 6 { '6' }
    else if d == 7 { '7' }
    else if d == 8 { '8' }
    else { '9' }
}

/// The decimal digits of `n`, most significant first, without leading zeros.
pub open spec fn decimal(n: nat) -> Seq<char>
    decreases n,
{
    if n < 10 {
        seq![digit_char(n)]
    } else {
        decimal(n / 10) + seq![digit_char(n % 10)]
    }
}

/// The text of one decimal digit.
fn digit_text(d: usize) -> (r: &'static str)
    requires
        d < 10,
    ensures
        r@ == seq![digit_char(d as nat)],
{
    if d == 0 {
        proof { reveal_strlit("0"); }
        "0"
    } else if d == 1 {
        proof { reveal_strlit("1"); }
        "1"
    } else if d == 2 {
        proof { reveal_strlit("2"); }
        "2"
    } else if d == 3 {
        proof { reveal_strlit("3"); }
        "3"
    } else if d == 4 {
        proof { reveal_strlit("4"); }
        "4"
    } else if d == 5 {
        proof { reveal_strlit("5"); }
        "5"
    } else if d == 6 {
        proof { reveal_strlit("6"); }
        "6"
    } else if d == 7 {
        proof { reveal_strlit("7"); }
        "7"
    } else if d == 8 {
        proof { reveal_strlit("8"); }
        "8"
    } else {
        proof { reveal_strlit("9"); }
        "9"
    }
}

/// `n` written in decimal.
fn decimal_string(n: usize) -> (r: String)
    ensures
        r@ == decimal(n as nat),
{
    // The digits, least significant first; `tail` is them in reading order.
    let mut digits: Vec<usize> = Vec::new();
    let ghost mut tail: Seq<char> = Seq::empty();
    let mut m: usize = n;
    while m >= 10
        invariant
            decimal(n as nat) == decimal(m as nat) + tail,
            tail.len() == digits@.len(),
            forall|i: int| 0 <= i < digits@.len() ==> #[trigger] digits@[i] < 10,
            forall|i: int| 0 <= i < digits@.len() ==> #[trigger] tail[i] == digit_char(digits@[digits@.len() - 1 - i] as nat),
        decreases m,
    {
        let ghost old_tail = tail;
        digits.push(m % 10);
        proof {
            tail = seq![digit_char((m % 10) as nat)] + old_tail;
            assert forall|i: int| 0 <= i < digits@.len() implies #[trigger] tail[i] == digit_char(digits@[digits@.len() - 1 - i] as nat) by {
                if i > 0 {
                    assert(tail[i] == old_tail[i - 1]);
                }
            }
            assert(decimal(m as nat) == decimal((m / 10) as nat) + seq![digit_char((m % 10) as nat)]);
            assert(decimal(n as nat) =~= decimal((m / 10) as nat) + tail);
        }
        m = m / 10;
    }
    digits.push(m);
    proof {
        let old_tail = tail;
        tail = seq![digit_char(m as nat)] + old_tail;
        assert forall|i: int| 0 <= i < digits@.len() implies #[trigger] tail[i] == digit_char(digits@[digits@.len() - 1 - i] as nat) by {
            if i > 0 {
                assert(tail[i] == old_tail[i - 1]);
            }
        }
        assert(decimal(n as nat) =~= tail);
    }
    let mut r = String::new();
    let mut j: usize = digits.len();
    while j > 0
        invariant
            j <= digits@.len(),
            tail.len() == digits@.len(),
            forall|i: int| 0 <= i < digits@.len() ==> #[trigger] digits@[i] < 10,
            forall|i: int| 0 <= i < digits@.len() ==> #[trigger] tail[i] == digit_char(digits@[digits@.len() - 1 - i] as nat),
            r@ == tail.take(digits@.len() - j),
        decreases j,
    {
        let ghost before = r@;
        r.append(digit_text(digits[j - 1]));
        assert(tail[digits@.len() - j] == digit_char(digits@[j - 1] as nat));
        assert(r@ =~= tail.take(digits@.len() - j + 1));
        j -= 1;
    }
    assert(tail.take(digits@.len() as int) =~= tail);
    r
}

/// The summary line: how many files were found, and how many of them are in
/// the list that applies.
pub open spec fn summary_line(file_count: nat, matched: nat, whitelisted: bool) -> Seq<char> {
    "Detected "@ + decimal(file_count) + " file(s), "@ + decimal(matched) + (if whitelisted {
        " in whitelist"@
    } else {
        " in blacklist"@
    })
}

/// The breakdown line of one extension.
pub open spec fn type_line(t: (Seq<char>, nat)) -> Seq<char> {
    "\t"@ + decimal(t.1) + " '"@ + t.0 + "' file(s)"@
}

/// The lines that Analyze prints: the summary, then, when any file was found,
/// a heading and one line per extension.
pub open spec fn report_spec(file_count: nat, types: Seq<(Seq<char>, nat)>, matched: nat, whitelisted: bool) -> Seq<Seq<char>> {
    seq![summary_line(file_count, matched, whitelisted)] + (if file_count > 0 {
        seq!["File type(s):"@] + types.map_values(|t: (Seq<char>, nat)| type_line(t))
    } else {
        Seq::empty()
    })
}

pub open spec fn lines_view(v: Seq<String>) -> Seq<Seq<char>> {
    v.map_values(|s: String| s@)
}

/// The lines that Analyze prints for `a`.
pub fn report(a: &Analysis) -> (r: Vec<String>)
    ensures
        lines_view(r@) == report_spec(a.file_count as nat, types_view(a.file_types@), a.matched as nat, a.whitelisted),
{
    let mut summary = String::from_str("Detected ");
    summary.append(decimal_string(a.file_count).as_str());
    summary.append(" file(s), ");
    summary.append(decimal_string(a.matched).as_str());
    if a.whitelisted {
        summary.append(" in whitelist");
    } else {
        summary.append(" in blacklist");
    }
    let mut lines: Vec<String> = Vec::new();
    lines.push(summary);
    assert(lines_view(lines@) =~= seq![summary_line(a.file_count as nat, a.matched as nat, a.whitelisted)]);
    if a.file_count > 0 {
        lines.push(String::from_str("File type(s):"));
        let ghost head = lines_view(lines@);
        let ghost types = types_view(a.file_types@);
        let mut i: usize = 0;
        while i < a.file_types.len()
            invariant
                i <= a.file_types.len(),
                types == types_view(a.file_types@),
                lines_view(lines@) == head + types.take(i as int).map_values(|t: (Seq<char>, nat)| type_line(t)),
            decreases a.file_types.len() - i,
        {
            let t = &a.file_types[i];
            let mut line = String::from_str("\t");
            line.append(decimal_string(t.count).as_str());
            line.append(" '");
            line.append(t.extension.as_str());
            line.append("' file(s)");
            let ghost before = lines_view(lines@);
            lines.push(line);
            assert(lines_view(lines@) =~= before.push(type_line(types[i as int])));
            assert(types.take(i + 1).map_values(|t: (Seq<char>, nat)| type_line(t))
                =~= types.take(i as int).map_values(|t: (Seq<char>, nat)| type_line(t)).push(type_line(types[i as int])));
            i += 1;
        }
        assert(types.take(a.file_types.len() as int) =~= types);
    }
    lines
}

} // verus!

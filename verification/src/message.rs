//! Human-readable text for the confirmation and error dialogs.

use vstd::prelude::*;
use vstd::string::StringExecFns;

verus! {

/// The texts of a sequence of strings.
pub open spec fn string_views(strings: Seq<String>) -> Seq<Seq<char>> {
    strings.map_values(|s: String| s@)
}

/// The texts of a sequence of string slices.
pub open spec fn str_views(strs: Seq<&str>) -> Seq<Seq<char>> {
    strs.map_values(|s: &str| s@)
}

/// The decimal digit `d` as a character.
pub open spec fn digit_char(d: nat) -> char {
    (d + '0' as nat) as char
}

/// The decimal notation of `n`, without leading zeros.
pub open spec fn decimal(n: nat) -> Seq<char>
    decreases n,
{
    if n < 10 {
        seq![digit_char(n)]
    } else {
        decimal(n / 10) + seq![digit_char(n % 10)]
    }
}

/// The number written in decimal by the digits `s`.
pub open spec fn digits_value(s: Seq<char>) -> int
    decreases s.len(),
{
    if s.len() == 0 {
        0
    } else {
        digits_value(s.drop_last()) * 10 + (s.last() as int - '0' as int)
    }
}

/// `decimal(n)` is the usual decimal notation of `n`: a non-empty run of
/// the digits `0`..=`9`, without a leading zero unless `n` is zero, that
/// reads back as `n`.
pub proof fn lemma_decimal_meaning(n: nat)
    ensures
        decimal(n).len() > 0,
        forall|i: int| 0 <= i < decimal(n).len() ==> '0' <= #[trigger] decimal(n)[i] && decimal(n)[i] <= '9',
        digits_value(decimal(n)) == n,
        decimal(n)[0] == '0' ==> n == 0,
    decreases n,
{
    assert(digit_char(n % 10) as int == n % 10 + '0' as int);
    if n < 10 {
        assert(n % 10 == n);
        assert(decimal(n).drop_last() =~= Seq::<char>::empty());
        assert(decimal(n).last() == digit_char(n));
        assert(digits_value(decimal(n)) == digits_value(Seq::<char>::empty()) * 10 + (
        digit_char(n) as int - '0' as int));
    }
    if n >= 10 {
        lemma_decimal_meaning(n / 10);
        let d = decimal(n);
        assert(d.drop_last() =~= decimal(n / 10));
        assert(d[0] == decimal(n / 10)[0]);
        assert(d.last() == digit_char(n % 10));
        assert(digits_value(d) == digits_value(decimal(n / 10)) * 10 + n % 10);
        assert((n / 10) * 10 + n % 10 == n) by (nonlinear_arith);
        assert forall|i: int| 0 <= i < d.len() implies '0' <= #[trigger] d[i] && d[i] <= '9' by {
            if i < d.len() - 1 {
                assert(d[i] == decimal(n / 10)[i]);
            }
        }
    }
}

/// The lines `items`, separated by line breaks.
pub open spec fn join_lines(items: Seq<Seq<char>>) -> Seq<char>
    decreases items.len(),
{
    if items.len() == 0 {
        Seq::empty()
    } else if items.len() == 1 {
        items[0]
    } else {
        join_lines(items.drop_last()) + "\n"@ + items.last()
    }
}

/// Joining lines puts exactly one line break between neighbours: one line
/// stands alone, and one more line is appended after a line break.
pub proof fn lemma_join_lines_meaning(items: Seq<Seq<char>>, line: Seq<char>)
    ensures
        join_lines(seq![line]) == line,
        items.len() > 0 ==> join_lines(items.push(line)) == join_lines(items) + seq!['\n'] + line,
        join_lines(Seq::<Seq<char>>::empty()) == Seq::<char>::empty(),
{
    reveal_strlit("\n");
    assert(items.push(line).drop_last() =~= items);
}

/// One line of the confirmation list.
pub open spec fn list_item(path: Seq<char>) -> Seq<char> {
    " - "@ + path
}

/// The confirmation prompt: a count header, a blank line, then each path on
/// a line of its own.
pub open spec fn confirmation_text(paths: Seq<Seq<char>>) -> Seq<char> {
    "Delete the following "@ + decimal(paths.len()) + " file(s)?\n\n"@ + join_lines(
        paths.map_values(|p: Seq<char>| list_item(p)),
    )
}

/// The error report: a header, then each file name on a line of its own.
pub open spec fn error_text(file_names: Seq<Seq<char>>) -> Seq<char> {
    "Could not delete:\n"@ + join_lines(file_names)
}

fn digit_text(d: usize) -> (text: &'static str)
    requires
        d < 10,
    ensures
        text@ == seq![digit_char(d as nat)],
{
    proof {
        reveal_strlit("0");
        reveal_strlit("1");
        reveal_strlit("2");
        reveal_strlit("3");
        reveal_strlit("4");
        reveal_strlit("5");
        reveal_strlit("6");
        reveal_strlit("7");
        reveal_strlit("8");
        reveal_strlit("9");
    }
    match d {
        0 => "0",
        1 => "1",
        2 => "2",
        3 => "3",
        4 => "4",
        5 => "5",
        6 => "6",
        7 => "7",
        8 => "8",
        _ => "9",
    }
}

fn push_decimal(text: &mut String, n: usize)
    ensures
        final(text)@ == old(text)@ + decimal(n as nat),
    decreases n,
{
    if n >= 10 {
        push_decimal(text, n / 10);
    }
    text.append(digit_text(n % 10));
}

/// Confirmation prompt listing the full path of every file to be deleted.
pub fn confirmation(paths: &[&str]) -> (text: String)
    ensures
        text@ == confirmation_text(str_views(paths@)),
{
    let ghost views = str_views(paths@);
    let ghost items = views.map_values(|p: Seq<char>| list_item(p));
    let mut text = String::new();
    text.append("Delete the following ");
    push_decimal(&mut text, paths.len());
    text.append(" file(s)?\n\n");
    let ghost head = text@;
    proof {
        assert(items.take(0) =~= Seq::<Seq<char>>::empty());
    }
    for i in 0..paths.len()
        invariant
            views == str_views(paths@),
            items == views.map_values(|p: Seq<char>| list_item(p)),
            text@ == head + join_lines(items.take(i as int)),
    {
        if i > 0 {
            text.append("\n");
        }
        text.append(" - ");
        text.append(paths[i]);
        proof {
            assert(items.take(i + 1).drop_last() =~= items.take(i as int));
            assert(items.take(i + 1).last() == list_item(paths@[i as int]@));
            if i == 0 {
                assert(join_lines(items.take(0)) =~= Seq::<char>::empty());
            }
        }
    }
    proof {
        assert(items.take(paths.len() as int) =~= items);
    }
    text
}

/// Error report listing the names of files that could not be deleted.
pub fn error(file_names: &[String]) -> (text: String)
    ensures
        text@ == error_text(string_views(file_names@)),
{
    let ghost views = string_views(file_names@);
    let mut text = String::new();
    text.append("Could not delete:\n");
    let ghost head = text@;
    proof {
        assert(views.take(0) =~= Seq::<Seq<char>>::empty());
    }
    for i in 0..file_names.len()
        invariant
            views == string_views(file_names@),
            text@ == head + join_lines(views.take(i as int)),
    {
        if i > 0 {
            text.append("\n");
        }
        text.append(file_names[i].as_str());
        proof {
            assert(views.take(i + 1).drop_last() =~= views.take(i as int));
            if i == 0 {
                assert(join_lines(views.take(0)) =~= Seq::<char>::empty());
            }
        }
    }
    proof {
        assert(views.take(file_names.len() as int) =~= views);
    }
    text
}

} // verus!

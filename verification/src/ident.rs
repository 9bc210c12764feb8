//! Identifier building: lower-casing, decimal instance numbering, expansion
//! of the `[%s]` placeholder, and dotted path composition.

use vstd::prelude::*;

verus! {

/// The lower-cased form of a character sequence, as `str::to_lowercase`
/// computes it.
pub uninterp spec fn lower_of(s: Seq<char>) -> Seq<char>;

/// Relies on str::to_lowercase: the result depends on the characters alone.
#[verifier::external_body]
pub fn lowercase(s: &str) -> (r: String)
    ensures
        r@ == lower_of(s@),
{
    s.to_lowercase()
}

/// The character for a single decimal digit.
pub open spec fn digit_char(d: int) -> char {
    if d == 0 {
        '0'
    } else if d == 1 {
        '1'
    } else if d == 2 {
        '2'
    } else if d == 3 {
        '3'
    } else if d == 4 {
        '4'
    } else if d == 5 {
        '5'
    } else if d == 6 {
        '6'
    } else if d == 7 {
        '7'
    } else if d == 8 {
        '8'
    } else {
        '9'
    }
}

/// The decimal representation of a natural number, most significant digit
/// first.
pub open spec fn spec_dec(n: nat) -> Seq<char>
    decreases n,
{
    if n < 10 {
        seq![digit_char(n as int)]
    } else {
        spec_dec(n / 10).push(digit_char((n % 10) as int))
    }
}

fn digit_str(d: u32) -> (r: &'static str)
    requires
        d < 10,
    ensures
        r@ == seq![digit_char(d as int)],
{
    let r: &'static str = match d {
        0 => "0",
        1 => "1",
        2 => "2",
        3 => "3",
        4 => "4",
        5 => "5",
        6 => "6",
        7 => "7",
        8 => "8",
        _ => "9",
    };
    proof {
        reveal_strlit("0");
        reveal_strlit("1");
        reveal_strlit("2");
        reveal_strlit("3");
        reveal_strlit("4");
        reveal_strlit("5");
        reveal_strlit("6");
        reveal_strlit("7");
        reveal_strlit("8");
        reveal_strlit("9");
        assert(r@ =~= seq![digit_char(d as int)]);
    }
    r
}

/// Formats an instance index as its decimal string.
pub fn usize_dec(n: usize) -> (r: String)
    ensures
        r@ == spec_dec(n as nat),
    decreases n,
{
    if n < 10 {
        String::from_str(digit_str(n as u32))
    } else {
        let mut s = usize_dec(n / 10);
        s.append(digit_str((n % 10) as u32));
        proof {
            assert(spec_dec((n / 10) as nat).push(digit_char((n % 10) as int)) =~= spec_dec(
                (n / 10) as nat,
            ) + seq![digit_char((n % 10) as int)]);
        }
        s
    }
}

/// The array-instance placeholder that a template name may contain.
pub open spec fn placeholder() -> Seq<char> {
    seq!['[', '%', 's', ']']
}

/// Every occurrence of the placeholder in `s` replaced by `t`, scanning left
/// to right without overlap, as `str::replace` does.
pub open spec fn spec_replace_inst(s: Seq<char>, t: Seq<char>) -> Seq<char>
    decreases s.len(),
{
    if s.len() < 4 {
        s
    } else if s.take(4) == placeholder() {
        t + spec_replace_inst(s.skip(4), t)
    } else {
        seq![s[0]] + spec_replace_inst(s.skip(1), t)
    }
}

/// The concrete name of instance `i` of a template name: the placeholder
/// replaced by the decimal string of `i`.
pub open spec fn spec_instance_id(name: Seq<char>, i: int) -> Seq<char> {
    spec_replace_inst(name, spec_dec(i as nat))
}

fn replace_inst(s: &str, t: &str) -> (r: String)
    ensures
        r@ == spec_replace_inst(s@, t@),
    decreases s@.len(),
{
    let n = s.unicode_len();
    if n < 4 {
        return String::from_str(s);
    }
    if s.get_char(0) == '[' && s.get_char(1) == '%' && s.get_char(2) == 's' && s.get_char(3) == ']'
    {
        proof {
            assert(s@.take(4) =~= placeholder());
        }
        let rest = s.substring_char(4, n);
        let rec = replace_inst(rest, t);
        let mut out = String::from_str(t);
        out.append(rec.as_str());
        out
    } else {
        proof {
            assert(s@.take(4) != placeholder()) by {
                if s@.take(4) == placeholder() {
                    assert(s@.take(4)[0] == s@[0]);
                    assert(s@.take(4)[1] == s@[1]);
                    assert(s@.take(4)[2] == s@[2]);
                    assert(s@.take(4)[3] == s@[3]);
                    assert(placeholder()[0] == '[');
                    assert(placeholder()[1] == '%');
                    assert(placeholder()[2] == 's');
                    assert(placeholder()[3] == ']');
                }
            }
        }
        let first = s.substring_char(0, 1);
        let rest = s.substring_char(1, n);
        let rec = replace_inst(rest, t);
        let mut out = String::from_str(first);
        out.append(rec.as_str());
        proof {
            assert(first@ =~= seq![s@[0]]);
        }
        out
    }
}

/// Expands a template name for array instance `i` by substituting the decimal
/// string of `i` for the placeholder; a name without the placeholder is
/// returned unchanged.
pub fn instance_id(name: &str, i: u32) -> (r: String)
    ensures
        r@ == spec_instance_id(name@, i as int),
{
    let num = usize_dec(i as usize);
    replace_inst(name, num.as_str())
}

/// The dotted child identifier under a parent path.
pub open spec fn spec_dotted(path: Seq<char>, name: Seq<char>) -> Seq<char> {
    path + seq!['.'] + name
}

/// Joins a parent path and a child name with a dot.
pub fn dotted(path: &str, name: &str) -> (r: String)
    ensures
        r@ == spec_dotted(path@, name@),
{
    let mut out = String::from_str(path);
    out.append(".");
    out.append(name);
    proof {
        reveal_strlit(".");
        assert(path@ + "."@ + name@ =~= spec_dotted(path@, name@));
    }
    out
}

} // verus!

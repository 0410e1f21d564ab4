//! Building the texts that people read: numbers, lists and messages.

use vstd::prelude::*;
use vstd::string::*;

verus! {

/// Are the two texts the same?
pub fn same(a: &str, b: &str) -> (r: bool)
    ensures
        r == (a@ == b@),
{
    let x: String = a.to_owned();
    let y: String = b.to_owned();
    x == y
}

/// The character of a digit in base sixteen (base ten uses the first ten).
pub open spec fn digit(d: int) -> char {
    if d < 10 {
        ('0' as int + d) as char
    } else {
        ('a' as int + (d - 10)) as char
    }
}

/// A number in base ten.
pub open spec fn dec(n: nat) -> Seq<char>
    decreases n,
{
    if n < 10 {
        seq![digit(n as int)]
    } else {
        dec(n / 10).push(digit((n % 10) as int))
    }
}

/// A number in base ten, in two places at least.
pub open spec fn dec2(n: nat) -> Seq<char> {
    if n < 10 {
        seq!['0', digit(n as int)]
    } else {
        dec(n)
    }
}

/// The last `places` digits of a number in base sixteen.
pub open spec fn hex(n: nat, places: nat) -> Seq<char>
    decreases places,
{
    if places == 0 {
        Seq::empty()
    } else {
        hex(n / 16, (places - 1) as nat).push(digit((n % 16) as int))
    }
}

fn digit_text(d: u64) -> (r: &'static str)
    requires
        d < 16,
    ensures
        r@ == seq![digit(d as int)],
{
    proof {
        reveal_strlit("0");
        reveal_strlit("1");
        reveal_strlit("2");
        reveal_strlit("3");
        reveal_strlit("4");
        reveal_strlit("5");
        reveal_strlit("6");
        reveal_strlit("7");
        reveal_strlit("8");
        reveal_strlit("9");
        reveal_strlit("a");
        reveal_strlit("b");
        reveal_strlit("c");
        reveal_strlit("d");
        reveal_strlit("e");
        reveal_strlit("f");
    }
    let r: &'static str = match d {
        0 => "0",
        1 => "1",
        2 => "2",
        3 => "3",
        4 => "4",
        5 => "5",
        6 => "6",
        7 => "7",
        8 => "8",
        9 => "9",
        10 => "a",
        11 => "b",
        12 => "c",
        13 => "d",
        14 => "e",
        _ => "f",
    };
    assert(r@ =~= seq![digit(d as int)]);
    r
}

/// Append a number in base ten.
pub fn push_dec(out: &mut String, n: u64)
    ensures
        final(out)@ == old(out)@ + dec(n as nat),
    decreases n,
{
    let ghost before = out@;
    if n >= 10 {
        push_dec(out, n / 10);
    }
    out.append(digit_text(n % 10));
    assert(out@ =~= before + dec(n as nat));
}

/// Append a number in base ten, in two places at least.
pub fn push_dec2(out: &mut String, n: u64)
    ensures
        final(out)@ == old(out)@ + dec2(n as nat),
{
    let ghost before = out@;
    if n < 10 {
        out.append("0");
        proof {
            reveal_strlit("0");
        }
        out.append(digit_text(n));
        assert(out@ =~= before + dec2(n as nat));
    } else {
        push_dec(out, n);
    }
}

/// Append the last `places` digits of a number in base sixteen.
pub fn push_hex(out: &mut String, n: u64, places: u64)
    ensures
        final(out)@ == old(out)@ + hex(n as nat, places as nat),
    decreases places,
{
    let ghost before = out@;
    if places > 0 {
        push_hex(out, n / 16, places - 1);
        out.append(digit_text(n % 16));
        assert(out@ =~= before + hex(n as nat, places as nat));
    } else {
        assert(out@ =~= before + hex(n as nat, places as nat));
    }
}

/// A number in base ten.
pub fn decimal(n: u64) -> (r: String)
    ensures
        r@ == dec(n as nat),
{
    let mut s: String = String::new();
    push_dec(&mut s, n);
    assert(s@ =~= dec(n as nat));
    s
}

/// Three texts, one after the other.
pub fn cat3(a: &str, b: &str, c: &str) -> (r: String)
    ensures
        r@ == a@ + b@ + c@,
{
    let mut s: String = a.to_owned();
    s.append(b);
    s.append(c);
    s
}

/// Five texts, one after the other.
pub fn cat5(a: &str, b: &str, c: &str, d: &str, e: &str) -> (r: String)
    ensures
        r@ == a@ + b@ + c@ + d@ + e@,
{
    let mut s: String = cat3(a, b, c);
    s.append(d);
    s.append(e);
    s
}

/// The texts one after the other, `sep` between them.
pub open spec fn joined(all: Seq<Seq<char>>, sep: Seq<char>) -> Seq<char>
    decreases all.len(),
{
    if all.len() == 0 {
        Seq::empty()
    } else if all.len() == 1 {
        all[0]
    } else {
        joined(all.drop_last(), sep) + sep + all.last()
    }
}

/// The contents of each text.
pub open spec fn views(all: Seq<String>) -> Seq<Seq<char>> {
    all.map_values(|s: String| s@)
}

/// The texts one after the other, `sep` between them.
pub fn join(all: &Vec<String>, sep: &str) -> (r: String)
    ensures
        r@ == joined(views(all@), sep@),
{
    let mut s: String = String::new();
    let mut i: usize = 0;
    while i < all.len()
        invariant
            i <= all@.len(),
            s@ == joined(views(all@.take(i as int)), sep@),
        decreases all@.len() - i,
    {
        let ghost before = s@;
        if i > 0 {
            s.append(sep);
        }
        s.append(all[i].as_str());
        proof {
            let next = views(all@.take(i + 1));
            assert(next.drop_last() =~= views(all@.take(i as int)));
            assert(next.last() == all@[i as int]@);
            if i == 0 {
                assert(s@ =~= all@[0]@);
            }
        }
        i = i + 1;
    }
    assert(all@.take(i as int) =~= all@);
    s
}

/// What `{:?}` writes for a text: quoted, with its special characters escaped.
pub uninterp spec fn debug_form(s: Seq<char>) -> Seq<char>;

/// Calls std's `Debug` for `str`, which writes the text in quotes and escapes
/// what would not show. Which characters are escaped is not stated: the result
/// only has a name.
#[verifier::external_body]
pub(crate) fn debug_str(s: &str) -> (r: String)
    ensures
        r@ == debug_form(s@),
{
    format!("{:?}", s)
}

/// `n` spaces.
pub open spec fn spaces(n: int) -> Seq<char> {
    Seq::new(
        if n > 0 {
            n as nat
        } else {
            0
        },
        |i: int| ' ',
    )
}

/// A text at the right of a field of `width` characters.
pub open spec fn at_right(s: Seq<char>, width: int) -> Seq<char> {
    spaces(width - s.len()) + s
}

/// A text at the left of a field of `width` characters.
pub open spec fn at_left(s: Seq<char>, width: int) -> Seq<char> {
    s + spaces(width - s.len())
}

fn push_spaces(out: &mut String, n: usize)
    ensures
        final(out)@ == old(out)@ + spaces(n as int),
{
    let ghost before = out@;
    let mut i: usize = 0;
    assert(before + spaces(0) =~= before);
    while i < n
        invariant
            i <= n,
            out@ == before + spaces(i as int),
        decreases n - i,
    {
        out.append(" ");
        proof {
            reveal_strlit(" ");
            assert(out@ =~= before + spaces(i + 1));
        }
        i = i + 1;
    }
}

/// Append a text at the right of a field of `width` characters.
pub fn push_right(out: &mut String, s: &str, width: usize)
    ensures
        final(out)@ == old(out)@ + at_right(s@, width as int),
{
    let ghost before = out@;
    let n: usize = s.unicode_len();
    if n < width {
        push_spaces(out, width - n);
    }
    out.append(s);
    assert(out@ =~= before + at_right(s@, width as int));
}

/// Append a text at the left of a field of `width` characters.
pub fn push_left(out: &mut String, s: &str, width: usize)
    ensures
        final(out)@ == old(out)@ + at_left(s@, width as int),
{
    let ghost before = out@;
    let n: usize = s.unicode_len();
    out.append(s);
    if n < width {
        push_spaces(out, width - n);
    }
    assert(out@ =~= before + at_left(s@, width as int));
}

/// Each text as `{:?}` writes it.
pub open spec fn debug_forms(all: Seq<Seq<char>>) -> Seq<Seq<char>> {
    all.map_values(|s: Seq<char>| debug_form(s))
}

/// A list of texts as `{:?}` writes it.
pub open spec fn debug_list(all: Seq<Seq<char>>) -> Seq<char> {
    "["@ + joined(debug_forms(all), ", "@) + "]"@
}

/// A list of texts as `{:?}` writes it.
pub fn debug_strs(all: &Vec<String>) -> (r: String)
    ensures
        r@ == debug_list(views(all@)),
{
    let mut shown: Vec<String> = Vec::new();
    let mut i: usize = 0;
    while i < all.len()
        invariant
            i <= all@.len(),
            shown@.len() == i,
            forall|k: int| 0 <= k < i ==> (#[trigger] shown@[k])@ == debug_form(all@[k]@),
        decreases all@.len() - i,
    {
        shown.push(debug_str(all[i].as_str()));
        i = i + 1;
    }
    assert(views(shown@) =~= debug_forms(views(all@)));
    let list: String = join(&shown, ", ");
    cat3("[", list.as_str(), "]")
}

/// The same texts again.
pub fn copied(all: &Vec<String>) -> (r: Vec<String>)
    ensures
        views(r@) == views(all@),
{
    let mut r: Vec<String> = Vec::new();
    let mut i: usize = 0;
    while i < all.len()
        invariant
            i <= all@.len(),
            r@.len() == i,
            forall|k: int| 0 <= k < i ==> (#[trigger] r@[k])@ == all@[k]@,
        decreases all@.len() - i,
    {
        r.push(all[i].clone());
        i = i + 1;
    }
    assert(views(r@) =~= views(all@));
    r
}

/// Two numbers are written differently.
pub proof fn numerals_differ(a: nat, b: nat)
    requires
        a != b,
    ensures
        dec(a) != dec(b),
    decreases a,
{
    lemma_dec_len(a);
    lemma_dec_len(b);
    if dec(a) == dec(b) {
        if a >= 10 && b >= 10 {
            assert(dec(a).drop_last() =~= dec(a / 10));
            assert(dec(b).drop_last() =~= dec(b / 10));
            assert(dec(a).last() == digit((a % 10) as int));
            assert(dec(b).last() == digit((b % 10) as int));
            if a / 10 != b / 10 {
                numerals_differ(a / 10, b / 10);
            }
        } else if a < 10 && b < 10 {
            assert(dec(a)[0] == dec(b)[0]);
        } else if a < 10 {
            lemma_dec_len(b / 10);
        } else {
            lemma_dec_len(a / 10);
        }
    }
}

proof fn lemma_dec_len(n: nat)
    ensures
        dec(n).len() >= 1,
        n < 10 <==> dec(n).len() == 1,
    decreases n,
{
    if n >= 10 {
        lemma_dec_len(n / 10);
    }
}

/// The value of a digit in base sixteen.
pub open spec fn digit_value(c: char) -> int {
    if '0' <= c && c <= '9' {
        c as int - '0' as int
    } else {
        c as int - 'a' as int + 10
    }
}

/// The value of digits in some base, the highest first.
pub open spec fn digits_value(s: Seq<char>, base: int) -> int
    decreases s.len(),
{
    if s.len() == 0 {
        0
    } else {
        digits_value(s.drop_last(), base) * base + digit_value(s.last())
    }
}

/// A number in base sixteen has the places it was given, and its digits are the
/// number if it fits them.
pub proof fn hexadecimals_read_back(n: nat, places: nat)
    requires
        n < vstd::arithmetic::power::pow(16, places),
    ensures
        hex(n, places).len() == places,
        digits_value(hex(n, places), 16) == n,
    decreases places,
{
    if places > 0 {
        let rest = (places - 1) as nat;
        vstd::arithmetic::power::lemma_pow1(16);
        reveal(vstd::arithmetic::power::pow);
        let s = hex(n, places);
        assert(n / 16 < vstd::arithmetic::power::pow(16, rest)) by {
            let p = vstd::arithmetic::power::pow(16, rest);
            assert(vstd::arithmetic::power::pow(16, places) == 16 * p);
        }
        hexadecimals_read_back(n / 16, rest);
        assert(s.drop_last() =~= hex(n / 16, rest));
        assert(s.last() == digit((n % 16) as int));
    } else {
        assert(vstd::arithmetic::power::pow(16, 0) == 1) by {
            vstd::arithmetic::power::lemma_pow0(16);
        }
    }
}

/// A number in base ten is its digits, and two places are filled up with a zero.
pub proof fn decimals_read_back(n: nat)
    ensures
        digits_value(dec(n), 10) == n,
        digits_value(dec2(n), 10) == n,
        dec2(n).len() >= 2,
    decreases n,
{
    reveal_with_fuel(digits_value, 3);
    lemma_dec_len(n);
    if n >= 10 {
        decimals_read_back(n / 10);
        assert(dec(n).drop_last() =~= dec(n / 10));
    } else {
        assert(dec(n).drop_last() =~= Seq::<char>::empty());
        assert(dec2(n).drop_last() =~= seq!['0']);
        assert(dec2(n).drop_last().drop_last() =~= Seq::<char>::empty());
    }
}

} // verus!

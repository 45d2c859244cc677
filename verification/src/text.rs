//! Comparing text.
use vstd::prelude::*;
use vstd::string::{StrSliceExecFns, StringExecFns};

verus! {

pub open spec fn begins_with(text: Seq<char>, prefix: Seq<char>) -> bool {
    prefix.len() <= text.len() && text.take(prefix.len() as int) == prefix
}

pub fn has_prefix(text: &str, prefix: &str) -> (r: bool)
    ensures
        r == begins_with(text@, prefix@),
{
    if text.unicode_len() < prefix.unicode_len() {
        return false;
    }
    let mut i: usize = 0;
    while i < prefix.unicode_len()
        invariant
            i <= prefix@.len() <= text@.len(),
            forall|k: int| 0 <= k < i ==> text@[k] == prefix@[k],
        decreases prefix@.len() - i,
    {
        if text.get_char(i) != prefix.get_char(i) {
            assert(text@.take(prefix@.len() as int)[i as int] != prefix@[i as int]);
            return false;
        }
        i += 1;
    }
    assert(text@.take(prefix@.len() as int) =~= prefix@);
    true
}

pub fn is_text(text: &str, wanted: &str) -> (r: bool)
    ensures
        r == (text@ == wanted@),
{
    let equal: bool = text.unicode_len() == wanted.unicode_len() && has_prefix(text, wanted);
    proof {
        if text@.len() == wanted@.len() {
            assert(text@.take(wanted@.len() as int) =~= text@);
        }
    }
    equal
}

/// The order of texts: the first character in which they differ decides, and a text
/// comes before what goes on from it.
pub open spec fn text_before(a: Seq<char>, b: Seq<char>) -> bool
    decreases a.len(),
{
    if b.len() == 0 {
        false
    } else if a.len() == 0 {
        true
    } else {
        (a[0] as int) < (b[0] as int) || (a[0] == b[0] && text_before(a.drop_first(), b.drop_first()))
    }
}

pub proof fn text_order_transitive(a: Seq<char>, b: Seq<char>, c: Seq<char>)
    requires
        text_before(a, b),
        text_before(b, c),
    ensures
        text_before(a, c),
    decreases a.len(),
{
    if a.len() > 0 && b.len() > 0 && c.len() > 0 && a[0] == b[0] && b[0] == c[0] {
        text_order_transitive(a.drop_first(), b.drop_first(), c.drop_first());
    }
}

pub proof fn text_order_total(a: Seq<char>, b: Seq<char>)
    ensures
        a == b || text_before(a, b) || text_before(b, a),
    decreases a.len(),
{
    if a.len() == 0 && b.len() == 0 {
        assert(a =~= b);
    } else if a.len() > 0 && b.len() > 0 && a[0] == b[0] {
        text_order_total(a.drop_first(), b.drop_first());
        if a.drop_first() == b.drop_first() {
            assert(a =~= seq![a[0]] + a.drop_first());
            assert(b =~= seq![b[0]] + b.drop_first());
            assert(a == b);
        }
    } else if a.len() > 0 && b.len() > 0 {
        assert(a[0] as int != b[0] as int);
    }
}

pub fn is_text_before(a: &str, b: &str) -> (r: bool)
    ensures
        r == text_before(a@, b@),
{
    let mut i: usize = 0;
    assert(a@.skip(0) =~= a@ && b@.skip(0) =~= b@);
    while i < a.unicode_len() && i < b.unicode_len()
        invariant
            i <= a@.len(),
            i <= b@.len(),
            text_before(a@, b@) == text_before(a@.skip(i as int), b@.skip(i as int)),
        decreases a@.len() - i,
    {
        let x: char = a.get_char(i);
        let y: char = b.get_char(i);
        assert(a@.skip(i as int).drop_first() =~= a@.skip(i + 1));
        assert(b@.skip(i as int).drop_first() =~= b@.skip(i + 1));
        if x != y {
            return (x as u32) < (y as u32);
        }
        i += 1;
    }
    i < b.unicode_len()
}

pub open spec fn digit(d: nat) -> char {
    if d == 0 {
        '0'
    } else if d == 1 {
        '1'
    } else if d == 2 {
        '2'
    } else if d == 3 {
        '3'
    } else if d == 4 {
        '4'
    } else if d == 5 {
        '5'
    } else if d == 6 {
        '6'
    } else if d == 7 {
        '7'
    } else if d == 8 {
        '8'
    } else {
        '9'
    }
}

/// A number in decimal digits, without leading zeros.
pub open spec fn decimal(n: nat) -> Seq<char>
    decreases n,
{
    if n < 10 {
        seq![digit(n)]
    } else {
        decimal(n / 10).push(digit(n % 10))
    }
}

fn digit_text(d: usize) -> (r: &'static str)
    requires
        d < 10,
    ensures
        r@ == seq![digit(d as nat)],
{
    proof {
        reveal_strlit("0");
        reveal_strlit("1");
        reveal_strlit("2");
        reveal_strlit("3");
        reveal_strlit("4");
        reveal_strlit("5");
        reveal_strlit("6");
        reveal_strlit("7");
        reveal_strlit("8");
        reveal_strlit("9");
    }
    if d == 0 {
        assert("0"@ =~= seq!['0']);
        "0"
    } else if d == 1 {
        assert("1"@ =~= seq!['1']);
        "1"
    } else if d == 2 {
        assert("2"@ =~= seq!['2']);
        "2"
    } else if d == 3 {
        assert("3"@ =~= seq!['3']);
        "3"
    } else if d == 4 {
        assert("4"@ =~= seq!['4']);
        "4"
    } else if d == 5 {
        assert("5"@ =~= seq!['5']);
        "5"
    } else if d == 6 {
        assert("6"@ =~= seq!['6']);
        "6"
    } else if d == 7 {
        assert("7"@ =~= seq!['7']);
        "7"
    } else if d == 8 {
        assert("8"@ =~= seq!['8']);
        "8"
    } else {
        assert("9"@ =~= seq!['9']);
        "9"
    }
}

/// Appends a number.
pub fn append_number(text: &mut String, n: usize)
    ensures
        final(text)@ == old(text)@ + decimal(n as nat),
    decreases n,
{
    if n < 10 {
        text.append(digit_text(n));
    } else {
        append_number(text, n / 10);
        text.append(digit_text(n % 10));
        assert(text@ =~= old(text)@ + decimal(n as nat));
    }
}

/// A number with its sign, where it is negative.
pub open spec fn signed(n: int) -> Seq<char> {
    if n < 0 {
        "-"@ + decimal((-n) as nat)
    } else {
        decimal(n as nat)
    }
}

/// Appends a number that may be negative.
pub fn append_signed(text: &mut String, n: i16)
    ensures
        final(text)@ == old(text)@ + signed(n as int),
{
    if n < 0 {
        text.append("-");
        append_number(text, (-(n as i32)) as usize);
        assert(text@ =~= old(text)@ + signed(n as int));
    } else {
        append_number(text, n as usize);
    }
}

/// A label followed by a number.
pub fn with_number(label: &str, n: usize) -> (r: String)
    ensures
        r@ == label@ + decimal(n as nat),
{
    let mut text = label.to_string();
    append_number(&mut text, n);
    text
}

/// Numbers with commas between them.
pub open spec fn joined(ids: Seq<u32>, upto: int) -> Seq<char>
    decreases upto,
{
    if upto <= 0 {
        Seq::empty()
    } else if upto == 1 {
        decimal(ids[0] as nat)
    } else {
        joined(ids, upto - 1) + ", "@ + decimal(ids[upto - 1] as nat)
    }
}

/// A list of numbers in square brackets.
pub open spec fn list_text(ids: Seq<u32>) -> Seq<char> {
    "["@ + joined(ids, ids.len() as int) + "]"@
}

/// Appends a list of numbers.
pub fn append_list(text: &mut String, ids: &Vec<u32>)
    ensures
        final(text)@ == old(text)@ + list_text(ids@),
{
    text.append("[");
    let ghost start = text@;
    let mut k: usize = 0;
    assert(text@ =~= start + joined(ids@, 0));
    while k < ids.len()
        invariant
            k <= ids@.len(),
            text@ == start + joined(ids@, k as int),
        decreases ids@.len() - k,
    {
        if k > 0 {
            text.append(", ");
        }
        append_number(text, ids[k] as usize);
        assert(text@ =~= start + joined(ids@, k + 1));
        k += 1;
    }
    text.append("]");
    assert(text@ =~= old(text)@ + list_text(ids@));
}

/// The number that a text of decimal digits denotes.
pub open spec fn value_of(text: Seq<char>) -> nat
    decreases text.len(),
{
    if text.len() == 0 {
        0
    } else {
        value_of(text.drop_last()) * 10 + (text.last() as nat - '0' as nat) as nat
    }
}

/// A number in writing denotes that number, in digits only and without a leading zero.
pub proof fn decimals_denote_their_number(n: nat)
    ensures
        value_of(decimal(n)) == n,
        decimal(n).len() > 0,
        forall|k: int| 0 <= k < decimal(n).len() ==> '0' as int <= #[trigger] decimal(n)[k] as int <= '9' as int,
        n > 0 ==> decimal(n)[0] != '0',
    decreases n,
{
    if n < 10 {
        assert(decimal(n).drop_last() =~= Seq::<char>::empty());
        assert(value_of(Seq::<char>::empty()) == 0);
        assert(decimal(n).last() == digit(n));
    } else {
        decimals_denote_their_number(n / 10);
        assert(decimal(n).drop_last() =~= decimal(n / 10));
        assert(decimal(n).last() == digit(n % 10));
    }
}

/// Different numbers are written differently.
pub proof fn decimals_tell_numbers_apart(a: nat, b: nat)
    ensures
        decimal(a) == decimal(b) <==> a == b,
{
    decimals_denote_their_number(a);
    decimals_denote_their_number(b);
}

/// Of a number with a sign, only a negative one begins with the sign; the rest is its amount.
pub proof fn signs_are_written(n: int)
    ensures
        n < 0 ==> signed(n)[0] == '-' && value_of(signed(n).skip(1)) == -n,
        n >= 0 ==> value_of(signed(n)) == n && signed(n)[0] != '-',
{
    reveal_strlit("-");
    if n < 0 {
        decimals_denote_their_number((-n) as nat);
        assert(signed(n).skip(1) =~= decimal((-n) as nat));
    } else {
        decimals_denote_their_number(n as nat);
        assert(decimal(n as nat)[0] as int >= '0' as int);
    }
}

/// A list in writing holds every number in its place, with a comma and a blank before all
/// but the first.
pub proof fn lists_hold_every_number(ids: Seq<u32>, upto: int)
    requires
        0 <= upto <= ids.len(),
    ensures
        joined(ids, upto) == Seq::new(
            upto as nat,
            |k: int|
                if k == 0 {
                    decimal(ids[k] as nat)
                } else {
                    seq![',', ' '] + decimal(ids[k] as nat)
                },
        ).flatten(),
    decreases upto,
{
    let part = |k: int|
        if k == 0 {
            decimal(ids[k] as nat)
        } else {
            seq![',', ' '] + decimal(ids[k] as nat)
        };
    let parts = Seq::new(upto as nat, part);
    parts.lemma_flatten_and_flatten_alt_are_equivalent();
    if upto > 0 {
        lists_hold_every_number(ids, upto - 1);
        let fewer = Seq::new((upto - 1) as nat, part);
        fewer.lemma_flatten_and_flatten_alt_are_equivalent();
        assert(parts.drop_last() =~= fewer);
        reveal_strlit(", ");
        assert(", "@ =~= seq![',', ' ']);
        if upto == 1 {
            assert(fewer =~= Seq::<Seq<char>>::empty());
            assert(joined(ids, 1) =~= Seq::<char>::empty() + decimal(ids[0] as nat));
        } else {
            assert(joined(ids, upto) =~= joined(ids, upto - 1) + (seq![',', ' '] + decimal(ids[upto - 1] as nat)));
        }
    }
}

/// Texts come as in a dictionary: two that differ first at some place come in the order of
/// what they have there.
pub proof fn first_difference_decides(a: Seq<char>, b: Seq<char>, k: int)
    requires
        0 <= k < a.len(),
        k < b.len(),
        a.take(k) == b.take(k),
        a[k] != b[k],
    ensures
        text_before(a, b) <==> (a[k] as int) < (b[k] as int),
    decreases k,
{
    if k > 0 {
        assert(a[0] == a.take(k)[0] && b[0] == b.take(k)[0]);
        let (x, y) = (a.drop_first(), b.drop_first());
        assert(x.take(k - 1) =~= a.take(k).drop_first());
        assert(y.take(k - 1) =~= b.take(k).drop_first());
        assert(x[k - 1] == a[k] && y[k - 1] == b[k]);
        first_difference_decides(x, y, k - 1);
    }
}

/// A text comes before every other one that begins with it.
pub proof fn shorter_texts_come_first(a: Seq<char>, b: Seq<char>)
    requires
        begins_with(b, a),
        a.len() < b.len(),
    ensures
        text_before(a, b),
        !text_before(b, a),
    decreases a.len(),
{
    if a.len() > 0 {
        assert(b.take(a.len() as int)[0] == a[0]);
        assert(b.drop_first().take(a.len() - 1) =~= b.take(a.len() as int).drop_first());
        shorter_texts_come_first(a.drop_first(), b.drop_first());
    }
}

/// A list is written between square brackets.
pub proof fn lists_stand_in_brackets(ids: Seq<u32>)
    ensures
        list_text(ids).len() >= 2,
        list_text(ids)[0] == '[',
        list_text(ids).last() == ']',
        list_text(ids).subrange(1, list_text(ids).len() - 1) == joined(ids, ids.len() as int),
{
    reveal_strlit("[");
    reveal_strlit("]");
    assert(list_text(ids).subrange(1, list_text(ids).len() - 1) =~= joined(ids, ids.len() as int));
}

} // verus!

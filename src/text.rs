use vstd::prelude::*;
use vstd::string::*;

verus! {

/// The decimal digit for `d` in `0..10`.
pub open spec fn digit_char(d: int) -> char {
    "0123456789"@[d]
}

/// Decimal notation of a natural number, without leading zeros.
pub open spec fn nat_text(n: nat) -> Seq<char>
    decreases n,
{
    if n < 10 {
        seq![digit_char(n as int)]
    } else {
        nat_text(n / 10).push(digit_char((n % 10) as int))
    }
}

/// Decimal notation of an integer, with a leading `-` when negative.
pub open spec fn int_text(i: int) -> Seq<char> {
    if i < 0 {
        "-"@ + nat_text((-i) as nat)
    } else {
        nat_text(i as nat)
    }
}

/// `items` joined with `sep` between consecutive items.
pub open spec fn join(items: Seq<Seq<char>>, sep: Seq<char>) -> Seq<char>
    decreases items.len(),
{
    if items.len() == 0 {
        Seq::empty()
    } else if items.len() == 1 {
        items[0]
    } else {
        join(items.drop_last(), sep) + sep + items.last()
    }
}

/// `"true"` or `"false"`.
pub open spec fn bool_text(b: bool) -> Seq<char> {
    if b {
        "true"@
    } else {
        "false"@
    }
}

/// Decimal notation of `n`.
pub fn nat_to_string(n: u64) -> (r: String)
    ensures
        r@ == nat_text(n as nat),
    decreases n,
{
    let digits = "0123456789";
    proof {
        reveal_strlit("0123456789");
    }
    if n < 10 {
        let d = n as usize;
        String::from_str(digits.substring_char(d, d + 1))
    } else {
        let mut s = nat_to_string(n / 10);
        let d = (n % 10) as usize;
        let last = digits.substring_char(d, d + 1);
        assert(last@ =~= seq![digit_char(d as int)]);
        s.append(last);
        assert(s@ =~= nat_text(n as nat));
        s
    }
}

/// Decimal notation of `i`.
pub fn int_to_string(i: i32) -> (r: String)
    ensures
        r@ == int_text(i as int),
{
    if i < 0 {
        let n = (0i64 - i as i64) as u64;
        let mut s = String::from_str("-");
        let digits = nat_to_string(n);
        s.append(digits.as_str());
        s
    } else {
        nat_to_string(i as u64)
    }
}

/// `"true"` or `"false"`.
pub fn bool_to_string(b: bool) -> (r: String)
    ensures
        r@ == bool_text(b),
{
    if b {
        String::from_str("true")
    } else {
        String::from_str("false")
    }
}

/// The items joined with `sep`.
pub fn join_strings(items: &Vec<String>, sep: &str) -> (r: String)
    ensures
        r@ == join(Seq::new(items.len() as nat, |i: int| items[i]@), sep@),
{
    let ghost whole = Seq::new(items.len() as nat, |i: int| items[i]@);
    let mut out = String::new();
    let mut i: usize = 0;
    while i < items.len()
        invariant
            i <= items.len(),
            whole == Seq::new(items.len() as nat, |i: int| items[i]@),
            out@ == join(whole.subrange(0, i as int), sep@),
        decreases items.len() - i,
    {
        let ghost before = whole.subrange(0, i as int);
        if i > 0 {
            out.append(sep);
        }
        out.append(items[i].as_str());
        proof {
            let now = whole.subrange(0, i + 1);
            assert(now.drop_last() =~= before);
            if i == 0 {
                assert(out@ =~= now[0]);
            } else {
                assert(out@ =~= join(before, sep@) + sep@ + now.last());
            }
        }
        i = i + 1;
    }
    assert(whole.subrange(0, items.len() as int) =~= whole);
    out
}

} // verus!

use vstd::prelude::*;
use vstd::string::StringExecFns;

verus! {

/// The character for one decimal digit value.
pub open spec fn dec_digit(d: int) -> char {
    ((48 + d) as u8) as char
}

/// The decimal rendering of a non-negative integer, without leading
/// zeros (except for the single digit of zero itself).
pub open spec fn dec_str(n: int) -> Seq<char>
    decreases n,
    when n >= 0
{
    if n < 10 {
        seq![dec_digit(n)]
    } else {
        dec_str(n / 10) + seq![dec_digit(n % 10)]
    }
}

/// The decimal rendering of a signed integer: a minus sign followed by
/// the magnitude when negative.
pub open spec fn dec_str_i64(v: int) -> Seq<char> {
    if v >= 0 {
        dec_str(v)
    } else {
        seq!['-'] + dec_str(-v)
    }
}

fn digit_str(d: u64) -> (r: &'static str)
    requires
        d < 10,
    ensures
        r@ == seq![dec_digit(d as int)],
{
    proof {
        reveal_strlit("0");
        reveal_strlit("1");
        reveal_strlit("2");
        reveal_strlit("3");
        reveal_strlit("4");
        reveal_strlit("5");
        reveal_strlit("6");
        reveal_strlit("7");
        reveal_strlit("8");
        reveal_strlit("9");
    }
    if d == 0 {
        "0"
    } else if d == 1 {
        "1"
    } else if d == 2 {
        "2"
    } else if d == 3 {
        "3"
    } else if d == 4 {
        "4"
    } else if d == 5 {
        "5"
    } else if d == 6 {
        "6"
    } else if d == 7 {
        "7"
    } else if d == 8 {
        "8"
    } else {
        "9"
    }
}

/// The decimal rendering of an unsigned 64-bit value.
pub fn u64_to_string(v: u64) -> (r: String)
    ensures
        r@ == dec_str(v as int),
    decreases v,
{
    if v < 10 {
        digit_str(v).to_owned()
    } else {
        let mut s = u64_to_string(v / 10);
        s.append(digit_str(v % 10));
        s
    }
}

/// The decimal rendering of a signed 64-bit value.
pub fn i64_to_string(v: i64) -> (r: String)
    ensures
        r@ == dec_str_i64(v as int),
{
    if v >= 0 {
        u64_to_string(v as u64)
    } else {
        let m: u64 = ((-(v + 1)) as u64) + 1;
        let mut s = "-".to_owned();
        proof {
            reveal_strlit("-");
        }
        s.append(u64_to_string(m).as_str());
        s
    }
}

/// `b` extends `a`: it is `a` with some text appended.
pub open spec fn grows(a: Seq<char>, b: Seq<char>) -> bool {
    exists|t: Seq<char>| b == a + t
}

/// A sequence extends itself.
pub proof fn lemma_grows_refl(a: Seq<char>)
    ensures
        grows(a, a),
{
    assert(a =~= a + Seq::<char>::empty());
}

/// Extension is transitive.
pub broadcast proof fn lemma_grows_trans(a: Seq<char>, b: Seq<char>, c: Seq<char>)
    ensures
        #![trigger grows(a, b), grows(b, c)]
        grows(a, b) && grows(b, c) ==> grows(a, c),
{
    if grows(a, b) && grows(b, c) {
        let t1 = choose|t: Seq<char>| b == a + t;
        let t2 = choose|t: Seq<char>| c == b + t;
        assert(c =~= a + (t1 + t2));
    }
}

/// Appending extends.
pub broadcast proof fn lemma_grows_step(a: Seq<char>, t: Seq<char>)
    ensures
        grows(a, #[trigger] (a + t)),
{
}

/// A decimal rendering is non-empty and consists of digit characters
/// alone (code points 48 through 57).
pub proof fn lemma_dec_str_digits(n: int)
    requires
        n >= 0,
    ensures
        dec_str(n).len() >= 1,
        forall|i: int|
            0 <= i < dec_str(n).len() ==> 48 <= (#[trigger] dec_str(n)[i]) as u32 <= 57,
    decreases n,
{
    if n >= 10 {
        lemma_dec_str_digits(n / 10);
        assert(forall|i: int|
            0 <= i < dec_str(n / 10).len() ==> dec_str(n)[i] == dec_str(n / 10)[i]);
        assert(dec_str(n)[dec_str(n).len() - 1] == dec_digit(n % 10));
    }
}

/// Two distinct non-negative integers render to distinct decimal texts.
pub proof fn lemma_dec_str_inj(m: int, n: int)
    requires
        m >= 0,
        n >= 0,
    ensures
        dec_str(m) == dec_str(n) ==> m == n,
    decreases m,
{
    lemma_dec_str_digits(m);
    lemma_dec_str_digits(n);
    if dec_str(m) == dec_str(n) {
        if m < 10 && n < 10 {
            assert(dec_str(m)[0] == dec_digit(m));
            assert(dec_str(n)[0] == dec_digit(n));
            assert(dec_digit(m) as u32 == 48 + m);
            assert(dec_digit(n) as u32 == 48 + n);
        } else if m < 10 && n >= 10 {
            lemma_dec_str_digits(n / 10);
            assert(dec_str(n).len() >= 2);
        } else if m >= 10 && n < 10 {
            lemma_dec_str_digits(m / 10);
            assert(dec_str(m).len() >= 2);
        } else {
            assert(dec_str(m).last() == dec_digit(m % 10));
            assert(dec_str(n).last() == dec_digit(n % 10));
            assert(dec_digit(m % 10) as u32 == 48 + m % 10);
            assert(dec_digit(n % 10) as u32 == 48 + n % 10);
            assert(m % 10 == n % 10);
            assert((dec_str(m / 10) + seq![dec_digit(m % 10)]).drop_last() =~= dec_str(m / 10));
            assert((dec_str(n / 10) + seq![dec_digit(n % 10)]).drop_last() =~= dec_str(n / 10));
            assert(dec_str(m / 10) == dec_str(n / 10));
            lemma_dec_str_inj(m / 10, n / 10);
        }
    }
}

} // verus!

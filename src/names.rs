//! Log file names: the id in twenty decimal digits followed by `.json`.
use vstd::prelude::*;
use vstd::string::StrSliceExecFns;

verus! {

pub open spec fn digit_char(d: nat) -> char {
    seq!['0', '1', '2', '3', '4', '5', '6', '7', '8', '9'][d as int]
}

/// The last `w` decimal digits of `n`, most significant first.
pub open spec fn digits(n: nat, w: nat) -> Seq<char>
    decreases w,
{
    if w == 0 {
        Seq::empty()
    } else {
        digits(n / 10, (w - 1) as nat).push(digit_char(n % 10))
    }
}

pub open spec fn pow10(w: nat) -> nat
    decreases w,
{
    if w == 0 {
        1
    } else {
        10 * pow10((w - 1) as nat)
    }
}

/// `a` sorts before `b` as text: they first differ at a position where `a`
/// holds the smaller character.
pub open spec fn text_lt(a: Seq<char>, b: Seq<char>) -> bool {
    exists|i: int|
        0 <= i < a.len() && i < b.len() && a.subrange(0, i) == b.subrange(0, i) && a[i] < b[i]
}

pub open spec fn json_suffix() -> Seq<char> {
    seq!['.', 'j', 's', 'o', 'n']
}

/// The name of the log file with id `id`: twenty decimal digits, zeros in
/// front, then `.json`; so names sort as text as their ids sort as numbers.
pub open spec fn log_name(id: u64) -> Seq<char> {
    digits(id as nat, 20) + json_suffix()
}

pub open spec fn is_digit(c: char) -> bool {
    '0' <= c && c <= '9'
}

/// The number that a run of decimal digits writes.
pub open spec fn digits_value(s: Seq<char>) -> nat
    decreases s.len(),
{
    if s.len() == 0 {
        0
    } else {
        digits_value(s.drop_last()) * 10 + (s.last() as nat - '0' as nat) as nat
    }
}

/// Digits, at least one, followed by `.json`.
pub open spec fn is_log_name(s: Seq<char>) -> bool {
    &&& s.len() > 5
    &&& s.subrange(s.len() - 5, s.len() as int) == json_suffix()
    &&& forall|i: int| 0 <= i < s.len() - 5 ==> is_digit(#[trigger] s[i])
}

/// The digits of a log file name.
pub open spec fn stem(s: Seq<char>) -> Seq<char> {
    s.subrange(0, s.len() - 5)
}

proof fn lemma_digit_char(d: nat)
    requires
        d < 10,
    ensures
        digit_char(d) as nat == '0' as nat + d,
        is_digit(digit_char(d)),
{
    let t = seq!['0', '1', '2', '3', '4', '5', '6', '7', '8', '9'];
    assert(t[0] == '0' && t[1] == '1' && t[2] == '2' && t[3] == '3' && t[4] == '4');
    assert(t[5] == '5' && t[6] == '6' && t[7] == '7' && t[8] == '8' && t[9] == '9');
}

/// The digits of a number below `10^w` write it back, in exactly `w` digits.
pub proof fn lemma_digits_value(n: nat, w: nat)
    requires
        n < pow10(w),
    ensures
        digits(n, w).len() == w,
        digits_value(digits(n, w)) == n,
        forall|i: int| 0 <= i < w ==> is_digit(#[trigger] digits(n, w)[i]),
    decreases w,
{
    if w > 0 {
        let q = n / 10;
        let r = n % 10;
        assert(q < pow10((w - 1) as nat)) by (nonlinear_arith)
            requires
                n < 10 * pow10((w - 1) as nat),
                q == n / 10,
        ;
        lemma_digits_value(q, (w - 1) as nat);
        lemma_digit_char(r);
        let d = digits(n, w);
        assert(d.drop_last() =~= digits(q, (w - 1) as nat));
        assert(n == q * 10 + r);
        assert forall|i: int| 0 <= i < w implies is_digit(#[trigger] digits(n, w)[i]) by {
            if i < w - 1 {
                assert(digits(n, w)[i] == digits(q, (w - 1) as nat)[i]);
            }
        }
    } else {
        assert(n == 0);
    }
}

/// Smaller numbers below `10^w` have digits that sort first as text.
pub proof fn lemma_digits_order(a: nat, b: nat, w: nat)
    requires
        a < b < pow10(w),
    ensures
        text_lt(digits(a, w), digits(b, w)),
    decreases w,
{
    if w == 0 {
        assert(false);
    } else {
        let w1 = (w - 1) as nat;
        let qa = a / 10;
        let qb = b / 10;
        assert(qa <= qb && qb < pow10(w1)) by (nonlinear_arith)
            requires
                a < b,
                b < 10 * pow10(w1),
                qa == a / 10,
                qb == b / 10,
        ;
        lemma_digits_value(qa, w1);
        lemma_digits_value(qb, w1);
        let da = digits(a, w);
        let db = digits(b, w);
        if qa < qb {
            lemma_digits_order(qa, qb, w1);
            let pa = digits(qa, w1);
            let pb = digits(qb, w1);
            let i = choose|i: int|
                0 <= i < pa.len() && i < pb.len() && pa.subrange(0, i) == pb.subrange(0, i) && pa[i]
                    < pb[i];
            assert(da.subrange(0, i) =~= pa.subrange(0, i));
            assert(db.subrange(0, i) =~= pb.subrange(0, i));
            assert(da[i] == pa[i] && db[i] == pb[i]);
        } else {
            assert(a % 10 < b % 10) by (nonlinear_arith)
                requires
                    a < b,
                    a / 10 == b / 10,
            ;
            lemma_digit_char(a % 10);
            lemma_digit_char(b % 10);
            let i = w1 as int;
            assert(da.subrange(0, i) =~= digits(qa, w1));
            assert(db.subrange(0, i) =~= digits(qb, w1));
            assert(da[i] < db[i]);
        }
    }
}

proof fn lemma_pow10_20()
    ensures
        u64::MAX < pow10(20),
{
    reveal_with_fuel(pow10, 21);
    assert(pow10(20) == 100000000000000000000nat);
}

/// Log names sort as text in the order of their ids.
pub proof fn lemma_name_order(a: u64, b: u64)
    requires
        a < b,
    ensures
        text_lt(log_name(a), log_name(b)),
{
    lemma_pow10_20();
    lemma_digits_order(a as nat, b as nat, 20);
    lemma_digits_value(a as nat, 20);
    lemma_digits_value(b as nat, 20);
    let da = digits(a as nat, 20);
    let db = digits(b as nat, 20);
    let i = choose|i: int|
        0 <= i < da.len() && i < db.len() && da.subrange(0, i) == db.subrange(0, i) && da[i] < db[i];
    assert(log_name(a).subrange(0, i) =~= da.subrange(0, i));
    assert(log_name(b).subrange(0, i) =~= db.subrange(0, i));
    assert(log_name(a)[i] == da[i] && log_name(b)[i] == db[i]);
}

fn digit_str(d: u64) -> (r: &'static str)
    requires
        d < 10,
    ensures
        r@ == seq![digit_char(d as nat)],
{
    proof {
        let t = seq!['0', '1', '2', '3', '4', '5', '6', '7', '8', '9'];
        assert(t[0] == '0' && t[1] == '1' && t[2] == '2' && t[3] == '3' && t[4] == '4');
        assert(t[5] == '5' && t[6] == '6' && t[7] == '7' && t[8] == '8' && t[9] == '9');
    }
    if d == 0 {
        proof { reveal_strlit("0"); }
        "0"
    } else if d == 1 {
        proof { reveal_strlit("1"); }
        "1"
    } else if d == 2 {
        proof { reveal_strlit("2"); }
        "2"
    } else if d == 3 {
        proof { reveal_strlit("3"); }
        "3"
    } else if d == 4 {
        proof { reveal_strlit("4"); }
        "4"
    } else if d == 5 {
        proof { reveal_strlit("5"); }
        "5"
    } else if d == 6 {
        proof { reveal_strlit("6"); }
        "6"
    } else if d == 7 {
        proof { reveal_strlit("7"); }
        "7"
    } else if d == 8 {
        proof { reveal_strlit("8"); }
        "8"
    } else {
        proof { reveal_strlit("9"); }
        "9"
    }
}

/// Appends the last `w` decimal digits of `n` to `out`.
fn push_digits(out: &mut String, n: u64, w: u64)
    ensures
        final(out)@ == old(out)@ + digits(n as nat, w as nat),
    decreases w,
{
    if w > 0 {
        push_digits(out, n / 10, w - 1);
        out.append(digit_str(n % 10));
        proof {
            assert(old(out)@ + digits(n as nat, w as nat) =~= old(out)@ + digits(
                (n / 10) as nat,
                (w - 1) as nat,
            ) + seq![digit_char((n % 10) as nat)]);
        }
    } else {
        assert(old(out)@ + digits(n as nat, 0) =~= old(out)@);
    }
}

/// The name of the log file with id `id`.
pub fn log_name_of(id: u64) -> (r: String)
    ensures
        r@ == log_name(id),
{
    let mut out = String::new();
    push_digits(&mut out, id, 20);
    out.append(".json");
    proof {
        reveal_strlit(".json");
        assert(out@ =~= log_name(id));
    }
    out
}

proof fn lemma_digits_value_prefix(s: Seq<char>, i: int)
    requires
        0 <= i <= s.len(),
        forall|j: int| 0 <= j < s.len() ==> is_digit(#[trigger] s[j]),
    ensures
        digits_value(s.subrange(0, i)) <= digits_value(s),
    decreases s.len() - i,
{
    if i < s.len() {
        let t = s.subrange(0, i + 1);
        assert(t.drop_last() =~= s.subrange(0, i));
        assert(t.last() == s[i]);
        assert(is_digit(s[i]));
        lemma_digits_value_prefix(s, i + 1);
    } else {
        assert(s.subrange(0, i) =~= s);
    }
}

/// The number that a name of digits followed by `.json` writes; none where
/// the name is not of that form or the number does not fit in a `u64`.
fn parse_digits_name(name: &str) -> (r: Option<u64>)
    ensures
        match r {
            Some(id) => is_log_name(name@) && digits_value(stem(name@)) == id,
            None => !is_log_name(name@) || digits_value(stem(name@)) > u64::MAX,
        },
{
    let n = name.unicode_len();
    if n <= 5 {
        return None;
    }
    let suffix = ".json";
    proof {
        reveal_strlit(".json");
    }
    let mut j: usize = 0;
    while j < 5
        invariant
            n == name@.len(),
            n > 5,
            suffix@ == json_suffix(),
            0 <= j <= 5,
            forall|t: int| 0 <= t < j ==> name@[n - 5 + t] == json_suffix()[t],
        decreases 5 - j,
    {
        if name.get_char(n - 5 + j) != suffix.get_char(j) {
            proof {
                assert(name@.subrange(n - 5, n as int)[j as int] != json_suffix()[j as int]);
            }
            return None;
        }
        j = j + 1;
    }
    proof {
        assert(name@.subrange(n - 5, n as int) =~= json_suffix());
    }
    let ghost s = stem(name@);
    let mut value: u64 = 0;
    let mut i: usize = 0;
    while i < n - 5
        invariant
            n == name@.len(),
            n > 5,
            s == name@.subrange(0, n - 5),
            name@.subrange(n - 5, n as int) == json_suffix(),
            0 <= i <= n - 5,
            forall|t: int| 0 <= t < i ==> is_digit(#[trigger] name@[t]),
            value == digits_value(s.subrange(0, i as int)),
        decreases n - 5 - i,
    {
        let c = name.get_char(i);
        if !('0' <= c && c <= '9') {
            proof {
                assert(!is_digit(name@[i as int]));
            }
            return None;
        }
        let d = (c as u32 - '0' as u32) as u64;
        let ghost t = s.subrange(0, i + 1);
        proof {
            assert(t.drop_last() =~= s.subrange(0, i as int));
            assert(t.last() == c);
        }
        if value > (u64::MAX - d) / 10 {
            proof {
                assert(value * 10 + d > u64::MAX) by (nonlinear_arith)
                    requires
                        value > (u64::MAX - d) / 10,
                        d <= 9,
                ;
                if is_log_name(name@) {
                    assert forall|k: int| 0 <= k < s.len() implies is_digit(#[trigger] s[k]) by {
                        assert(s[k] == name@[k]);
                    }
                    lemma_digits_value_prefix(s, i + 1);
                }
            }
            return None;
        }
        proof {
            assert(value * 10 + d <= u64::MAX) by (nonlinear_arith)
                requires
                    value <= (u64::MAX - d) / 10,
                    d <= 9,
            ;
        }
        value = value * 10 + d;
        i = i + 1;
    }
    proof {
        assert(s.subrange(0, (n - 5) as int) =~= s);
    }
    Some(value)
}

/// The id of a log file, from its name; none where the name is not the name
/// of any id.
pub fn parse_log_file_name(name: &str) -> (r: Option<u64>)
    ensures
        match r {
            Some(id) => name@ == log_name(id),
            None => forall|id: u64| name@ != log_name(id),
        },
{
    let value = match parse_digits_name(name) {
        Some(v) => v,
        None => {
            proof {
                assert forall|id: u64| name@ != log_name(id) by {
                    if name@ == log_name(id) {
                        lemma_name_shape(id);
                    }
                }
            }
            return None;
        },
    };
    let canonical = log_name_of(value);
    if canonical == name.to_owned() {
        Some(value)
    } else {
        proof {
            assert forall|id: u64| name@ != log_name(id) by {
                if name@ == log_name(id) {
                    lemma_name_shape(id);
                }
            }
        }
        None
    }
}

proof fn lemma_name_shape(id: u64)
    ensures
        is_log_name(log_name(id)),
        digits_value(stem(log_name(id))) == id,
{
    lemma_pow10_20();
    lemma_digits_value(id as nat, 20);
    let n = log_name(id);
    assert(stem(n) =~= digits(id as nat, 20));
    assert(n.subrange(n.len() - 5, n.len() as int) =~= json_suffix());
    assert forall|i: int| 0 <= i < n.len() - 5 implies is_digit(#[trigger] n[i]) by {
        assert(n[i] == digits(id as nat, 20)[i]);
    }
}

} // verus!

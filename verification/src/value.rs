//! Attribute values and the textual coercion policy.
//!
//! Change payloads arrive as text.  One pure function decides how a payload
//! is read: as an integer number if it is written as an optional minus sign
//! followed by digits (and fits in `i64`), as a boolean if it is exactly
//! `true` or `false`, and as plain text otherwise.

use vstd::prelude::*;

verus! {

use vstd::string::StrSliceExecFns;
use vstd::string::StringExecFns;

/// Relies on `String::push`: it appends the given character to the end
/// of the string.
pub assume_specification[ String::push ](s: &mut String, c: char)
    ensures
        final(s)@ == old(s)@.push(c),
;

/// Mathematical model of an attribute value.
pub enum SpecValue {
    Num(int),
    Bool(bool),
    Text(Seq<char>),
}

/// A coerced attribute value: integer number, boolean, or plain text.
#[derive(Debug)]
pub enum Value {
    Num(i64),
    Bool(bool),
    Text(String),
}

impl View for Value {
    type V = SpecValue;

    open spec fn view(&self) -> SpecValue {
        match self {
            Value::Num(n) => SpecValue::Num(*n as int),
            Value::Bool(b) => SpecValue::Bool(*b),
            Value::Text(s) => SpecValue::Text(s@),
        }
    }
}

impl Clone for Value {
    fn clone(&self) -> (r: Self)
        ensures
            r@ == self@,
    {
        match self {
            Value::Num(n) => Value::Num(*n),
            Value::Bool(b) => Value::Bool(*b),
            Value::Text(s) => Value::Text(s.clone()),
        }
    }
}

pub open spec fn is_digit(c: char) -> bool {
    ('0' as u32) <= (c as u32) && (c as u32) <= ('9' as u32)
}

pub open spec fn digit_val(c: char) -> int {
    (c as u32) - ('0' as u32)
}

pub open spec fn all_digits(s: Seq<char>) -> bool {
    forall|i: int| 0 <= i < s.len() ==> is_digit(#[trigger] s[i])
}

/// Value of a digit string, most significant digit first.
pub open spec fn digits_val(s: Seq<char>) -> int
    decreases s.len(),
{
    if s.len() == 0 {
        0
    } else {
        digits_val(s.drop_last()) * 10 + digit_val(s.last())
    }
}

/// A payload is written as a number when it is an optional minus sign
/// followed by at least one digit.
pub open spec fn is_num_literal(s: Seq<char>) -> bool {
    if s.len() > 0 && s[0] == '-' {
        s.len() >= 2 && all_digits(s.skip(1))
    } else {
        s.len() >= 1 && all_digits(s)
    }
}

pub open spec fn num_literal_val(s: Seq<char>) -> int
    recommends
        is_num_literal(s),
{
    if s.len() > 0 && s[0] == '-' {
        -digits_val(s.skip(1))
    } else {
        digits_val(s)
    }
}

/// The coercion policy: numeric text becomes a number when it fits in
/// `i64`, the exact words `true`/`false` become booleans, and everything
/// else stays text.
pub open spec fn spec_coerce(s: Seq<char>) -> SpecValue {
    if is_num_literal(s) && i64::MIN <= num_literal_val(s) <= i64::MAX {
        SpecValue::Num(num_literal_val(s))
    } else if s == "true"@ {
        SpecValue::Bool(true)
    } else if s == "false"@ {
        SpecValue::Bool(false)
    } else {
        SpecValue::Text(s)
    }
}

/// Decimal rendering of a natural number, no leading zeros.
pub open spec fn spec_nat_string(n: nat) -> Seq<char>
    decreases n,
{
    if n < 10 {
        seq![digit_char(n as int)]
    } else {
        spec_nat_string(n / 10).push(digit_char((n % 10) as int))
    }
}

pub open spec fn digit_char(d: int) -> char {
    if d == 0 {
        '0'
    } else if d == 1 {
        '1'
    } else if d == 2 {
        '2'
    } else if d == 3 {
        '3'
    } else if d == 4 {
        '4'
    } else if d == 5 {
        '5'
    } else if d == 6 {
        '6'
    } else if d == 7 {
        '7'
    } else if d == 8 {
        '8'
    } else {
        '9'
    }
}

/// Decimal rendering of an integer.
pub open spec fn spec_int_string(n: int) -> Seq<char> {
    if n < 0 {
        seq!['-'] + spec_nat_string((-n) as nat)
    } else {
        spec_nat_string(n as nat)
    }
}

/// How a value is written back to text (used when a reconstructed state is
/// flattened into synthetic SET records, and by the sheet renderer).
pub open spec fn spec_render(v: SpecValue) -> Seq<char> {
    match v {
        SpecValue::Num(n) => spec_int_string(n),
        SpecValue::Bool(b) => if b {
            "true"@
        } else {
            "false"@
        },
        SpecValue::Text(s) => s,
    }
}

/// Powers of ten, for digit-count bounds.
pub open spec fn pow10(n: nat) -> int
    decreases n,
{
    if n == 0 {
        1
    } else {
        10 * pow10((n - 1) as nat)
    }
}

/// Addition on values clamped to the `i64` range; relative (ADD) changes
/// accumulate with this operation.
pub open spec fn spec_sat_add(a: int, b: int) -> int {
    if a + b > i64::MAX {
        i64::MAX as int
    } else if a + b < i64::MIN {
        i64::MIN as int
    } else {
        a + b
    }
}

pub fn sat_add_i64(a: i64, b: i64) -> (r: i64)
    ensures
        r as int == spec_sat_add(a as int, b as int),
{
    if b >= 0 {
        if a <= i64::MAX - b {
            a + b
        } else {
            i64::MAX
        }
    } else {
        if a >= i64::MIN - b {
            a + b
        } else {
            i64::MIN
        }
    }
}

pub proof fn lemma_digits_val_nonneg(s: Seq<char>)
    requires
        all_digits(s),
    ensures
        digits_val(s) >= 0,
    decreases s.len(),
{
    if s.len() > 0 {
        assert(is_digit(s[s.len() - 1]));
        lemma_digits_val_nonneg(s.drop_last());
    }
}

proof fn lemma_all_zeros(s: Seq<char>)
    requires
        forall|k: int| 0 <= k < s.len() ==> s[k] == '0',
    ensures
        digits_val(s) == 0,
    decreases s.len(),
{
    if s.len() > 0 {
        assert(s.last() == '0');
        lemma_all_zeros(s.drop_last());
    }
}

proof fn lemma_skip_zeros(s: Seq<char>, j: int)
    requires
        0 <= j <= s.len(),
        forall|k: int| 0 <= k < j ==> s[k] == '0',
    ensures
        digits_val(s) == digits_val(s.skip(j)),
    decreases s.len(),
{
    if j == s.len() {
        lemma_all_zeros(s);
        assert(s.skip(j) =~= Seq::<char>::empty());
    } else if s.len() > 0 {
        lemma_skip_zeros(s.drop_last(), j);
        assert(s.skip(j).drop_last() =~= s.drop_last().skip(j));
        assert(s.skip(j).last() == s.last());
    }
}

proof fn lemma_digit_val_pos(c: char)
    requires
        is_digit(c),
        c != '0',
    ensures
        digit_val(c) >= 1,
{
}

proof fn lemma_msd_bound(s: Seq<char>)
    requires
        all_digits(s),
        s.len() > 0,
        s[0] != '0',
    ensures
        digits_val(s) >= pow10((s.len() - 1) as nat),
    decreases s.len(),
{
    assert(is_digit(s[s.len() - 1]));
    if s.len() == 1 {
        assert(is_digit(s[0]));
        lemma_digit_val_pos(s[0]);
        assert(digits_val(s.drop_last()) == 0);
        assert(pow10(0) == 1);
    } else {
        assert(s.drop_last()[0] == s[0]);
        assert(forall|i: int|
            0 <= i < s.drop_last().len() ==> is_digit(#[trigger] s.drop_last()[i]));
        lemma_msd_bound(s.drop_last());
        assert(digit_val(s.last()) >= 0);
        assert(digits_val(s.drop_last()) * 10 >= pow10((s.len() - 2) as nat) * 10);
        assert(pow10((s.len() - 1) as nat) == 10 * pow10((s.len() - 2) as nat));
    }
}

/// Decimal rendering of a natural number parses back to the same number.
pub proof fn lemma_nat_string_props(n: nat)
    ensures
        all_digits(spec_nat_string(n)),
        spec_nat_string(n).len() >= 1,
        digits_val(spec_nat_string(n)) == n,
        n >= 1 ==> spec_nat_string(n)[0] != '0',
        spec_nat_string(n)[0] != '-',
    decreases n,
{
    if n < 10 {
        assert(spec_nat_string(n) =~= seq![digit_char(n as int)]);
        assert(digit_val(digit_char(n as int)) == n);
        assert(is_digit(digit_char(n as int)));
        assert(digits_val(seq![digit_char(n as int)].drop_last()) == 0);
    } else {
        lemma_nat_string_props(n / 10);
        let s = spec_nat_string(n);
        let p = spec_nat_string(n / 10);
        assert(s =~= p.push(digit_char((n % 10) as int)));
        assert(s.drop_last() =~= p);
        assert(s.last() == digit_char((n % 10) as int));
        assert(digit_val(digit_char((n % 10) as int)) == n % 10);
        assert(is_digit(digit_char((n % 10) as int)));
        assert(digits_val(s) == digits_val(p) * 10 + (n % 10));
        assert(forall|i: int|
            0 <= i < s.len() ==> is_digit(#[trigger] s[i]) == if i < p.len() {
                is_digit(p[i])
            } else {
                is_digit(digit_char((n % 10) as int))
            });
    }
}

/// Rendering an `i64`-range integer and coercing the text back yields the
/// same number.
pub proof fn lemma_coerce_render_num(n: int)
    requires
        i64::MIN <= n <= i64::MAX,
    ensures
        spec_coerce(spec_int_string(n)) == SpecValue::Num(n),
{
    if n >= 0 {
        let s = spec_nat_string(n as nat);
        lemma_nat_string_props(n as nat);
        assert(is_num_literal(s));
        assert(num_literal_val(s) == n);
    } else {
        let m = spec_nat_string((-n) as nat);
        let s = seq!['-'] + m;
        lemma_nat_string_props((-n) as nat);
        assert(s[0] == '-');
        assert(s.skip(1) =~= m);
        assert(is_num_literal(s));
        assert(num_literal_val(s) == -digits_val(m) == n);
    }
}

/// The words `true` and `false` coerce back to the booleans they render.
pub proof fn lemma_coerce_render_bool(b: bool)
    ensures
        spec_coerce(spec_render(SpecValue::Bool(b))) == SpecValue::Bool(b),
{
    reveal_strlit("true");
    reveal_strlit("false");
    if b {
        assert(!is_digit('t'));
        assert("true"@[0] == 't');
        assert(!is_num_literal("true"@));
    } else {
        assert(!is_digit('f'));
        assert("false"@[0] == 'f');
        assert(!is_num_literal("false"@));
        assert("false"@.len() != "true"@.len());
        assert("false"@ != "true"@);
    }
}

/// A value survives the render-then-coerce round trip exactly when it is
/// `round_stable`: numbers and booleans always do; text does unless it
/// happens to be written like a number or a boolean.
pub open spec fn round_stable(v: SpecValue) -> bool {
    spec_coerce(spec_render(v)) == v
}

pub proof fn lemma_num_bool_round_stable(v: SpecValue)
    requires
        v is Num ==> i64::MIN <= v->Num_0 <= i64::MAX,
        !(v is Text),
    ensures
        round_stable(v),
{
    match v {
        SpecValue::Num(n) => {
            lemma_coerce_render_num(n);
        },
        SpecValue::Bool(b) => {
            lemma_coerce_render_bool(b);
        },
        SpecValue::Text(_) => {},
    }
}

fn digit_str(d: u64) -> (s: &'static str)
    requires
        d < 10,
    ensures
        s@ =~= seq![digit_char(d as int)],
{
    proof {
        reveal_strlit("0");
        reveal_strlit("1");
        reveal_strlit("2");
        reveal_strlit("3");
        reveal_strlit("4");
        reveal_strlit("5");
        reveal_strlit("6");
        reveal_strlit("7");
        reveal_strlit("8");
        reveal_strlit("9");
    }
    if d == 0 {
        "0"
    } else if d == 1 {
        "1"
    } else if d == 2 {
        "2"
    } else if d == 3 {
        "3"
    } else if d == 4 {
        "4"
    } else if d == 5 {
        "5"
    } else if d == 6 {
        "6"
    } else if d == 7 {
        "7"
    } else if d == 8 {
        "8"
    } else {
        "9"
    }
}

fn nat_to_string(n: u64) -> (s: String)
    ensures
        s@ == spec_nat_string(n as nat),
    decreases n,
{
    if n < 10 {
        let s = String::from_str(digit_str(n));
        proof {
            assert(s@ =~= spec_nat_string(n as nat));
        }
        s
    } else {
        let mut s = nat_to_string(n / 10);
        s.append(digit_str(n % 10));
        proof {
            assert(s@ =~= spec_nat_string(n as nat));
        }
        s
    }
}

/// Decimal rendering of a signed integer.
pub fn int_to_string(n: i64) -> (s: String)
    ensures
        s@ == spec_int_string(n as int),
{
    if n >= 0 {
        nat_to_string(n as u64)
    } else {
        let mag: u64 = if n == i64::MIN {
            9223372036854775808u64
        } else {
            (-n) as u64
        };
        let mut s = String::from_str("-");
        let digits = nat_to_string(mag);
        s.append(digits.as_str());
        proof {
            reveal_strlit("-");
            assert(s@ =~= spec_int_string(n as int));
        }
        s
    }
}

/// Writes a value back to text: numbers in decimal, booleans as
/// `true`/`false`, text as itself.
pub fn render_value(v: &Value) -> (r: String)
    ensures
        r@ == spec_render(v@),
{
    match v {
        Value::Num(n) => int_to_string(*n),
        Value::Bool(b) => if *b {
            String::from_str("true")
        } else {
            String::from_str("false")
        },
        Value::Text(s) => s.clone(),
    }
}

fn parse_int(s: &str) -> (r: Option<i64>)
    ensures
        match r {
            Some(n) => is_num_literal(s@) && num_literal_val(s@) == n as int,
            None => !(is_num_literal(s@) && i64::MIN <= num_literal_val(s@) <= i64::MAX),
        },
{
    let len = s.unicode_len();
    if len == 0 {
        return None;
    }
    let neg = s.get_char(0) == '-';
    let start: usize = if neg {
        1
    } else {
        0
    };
    if start == len {
        return None;
    }
    let mut j: usize = start;
    while j < len
        invariant
            start <= j <= len,
            start < len,
            len == s@.len(),
            neg ==> s@[0] == '-',
            !neg ==> s@[0] != '-',
            start == if neg {
                1int
            } else {
                0int
            },
            forall|k: int| start <= k < j ==> is_digit(#[trigger] s@[k]),
        decreases len - j,
    {
        let c = s.get_char(j);
        let u = c as u32;
        if !(48 <= u && u <= 57) {
            proof {
                assert(!is_digit(s@[j as int]));
                if neg {
                    assert(s@.skip(1)[j - 1] == s@[j as int]);
                    assert(!all_digits(s@.skip(1)));
                } else {
                    assert(!all_digits(s@));
                }
            }
            return None;
        }
        j += 1;
    }
    proof {
        if neg {
            assert forall|k: int| 0 <= k < s@.skip(1).len() implies is_digit(
                #[trigger] s@.skip(1)[k],
            ) by {
                assert(is_digit(s@[k + 1]));
            }
            assert(is_num_literal(s@));
        } else {
            assert(is_num_literal(s@));
        }
    }
    // Skip leading zeros so that the digit-count bound below is exact.
    let mut z: usize = start;
    while z < len && s.get_char(z) == '0'
        invariant
            start <= z <= len,
            len == s@.len(),
            forall|k: int| start <= k < z ==> s@[k] == '0',
        decreases len - z,
    {
        z += 1;
    }
    proof {
        assert forall|k: int| 0 <= k < z - start implies s@.skip(start as int)[k] == '0' by {
            assert(s@[k + start] == '0');
        }
        lemma_skip_zeros(s@.skip(start as int), z - start);
        assert(s@.skip(start as int).skip(z - start) =~= s@.skip(z as int));
        assert(digits_val(s@.skip(start as int)) == digits_val(s@.skip(z as int)));
        if neg {
            assert(num_literal_val(s@) == -digits_val(s@.skip(z as int)));
        } else {
            assert(s@.skip(0) =~= s@);
            assert(num_literal_val(s@) == digits_val(s@.skip(z as int)));
        }
        assert forall|k: int| 0 <= k < s@.skip(z as int).len() implies is_digit(
            #[trigger] s@.skip(z as int)[k],
        ) by {
            assert(is_digit(s@[k + z]));
        }
        lemma_digits_val_nonneg(s@.skip(z as int));
    }
    let m = len - z;
    if m > 19 {
        proof {
            assert(z < len);
            assert(s@[z as int] != '0');
            assert(s@.skip(z as int)[0] == s@[z as int]);
            lemma_msd_bound(s@.skip(z as int));
            lemma_pow10_19();
            lemma_pow10_increases((19) as nat, (m - 1) as nat);
        }
        return None;
    }
    let mut acc: u64 = 0;
    let mut k: usize = z;
    proof {
        assert(s@.subrange(z as int, z as int) =~= Seq::<char>::empty());
    }
    while k < len
        invariant
            z <= k <= len,
            len == s@.len(),
            len - z <= 19,
            forall|q: int| z <= q < len ==> is_digit(#[trigger] s@[q]),
            acc as int == digits_val(s@.subrange(z as int, k as int)),
            (acc as int) < pow10((k - z) as nat),
        decreases len - k,
    {
        let c = s.get_char(k);
        let d = (c as u32 - 48) as u64;
        proof {
            lemma_pow10_19();
            lemma_pow10_increases(((k - z) + 1) as nat, (19) as nat);
            assert(s@.subrange(z as int, k + 1 as int).drop_last() =~= s@.subrange(
                z as int,
                k as int,
            ));
            assert(s@.subrange(z as int, k + 1 as int).last() == s@[k as int]);
        }
        acc = acc * 10 + d;
        k += 1;
    }
    proof {
        assert(s@.subrange(z as int, len as int) =~= s@.skip(z as int));
    }
    if neg {
        proof {
            assert(s@.skip(1)[0] == s@[1]);
        }
        if acc <= 9223372036854775807u64 {
            Some(-(acc as i64))
        } else if acc == 9223372036854775808u64 {
            Some(i64::MIN)
        } else {
            None
        }
    } else {
        if acc <= 9223372036854775807u64 {
            Some(acc as i64)
        } else {
            None
        }
    }
}

proof fn lemma_pow10_19()
    ensures
        pow10(19) == 10000000000000000000,
{
    reveal_with_fuel(pow10, 21);
}

proof fn lemma_pow10_pos(n: nat)
    ensures
        pow10(n) >= 1,
    decreases n,
{
    if n > 0 {
        lemma_pow10_pos((n - 1) as nat);
    }
}

proof fn lemma_pow10_increases(a: nat, b: nat)
    requires
        a <= b,
    ensures
        pow10(a) <= pow10(b),
        pow10(a) >= 1,
    decreases b,
{
    lemma_pow10_pos(a);
    if a < b {
        lemma_pow10_increases(a, (b - 1) as nat);
    }
}

/// The coercion policy as executable code: one well-tested pure function
/// through which every textual payload is read.
pub fn coerce_value(s: &str) -> (r: Value)
    ensures
        r@ == spec_coerce(s@),
{
    match parse_int(s) {
        Some(n) => Value::Num(n),
        None => {
            let owned = s.to_owned();
            if owned == String::from_str("true") {
                Value::Bool(true)
            } else if owned == String::from_str("false") {
                Value::Bool(false)
            } else {
                Value::Text(owned)
            }
        },
    }
}

} // verus!

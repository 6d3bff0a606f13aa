use vstd::prelude::*;

verus! {

/// An ASCII decimal digit.
pub open spec fn is_digit(c: char) -> bool {
    '0' <= c && c <= '9'
}

/// Every character of `s` is an ASCII decimal digit (vacuously true when empty).
pub open spec fn all_digits(s: Seq<char>) -> bool {
    forall|i: int| 0 <= i < s.len() ==> is_digit(#[trigger] s[i])
}

/// Number of occurrences of `c` in `s`.
pub open spec fn count_char(s: Seq<char>, c: char) -> nat
    decreases s.len(),
{
    if s.len() == 0 {
        0
    } else {
        count_char(s.drop_last(), c) + if s.last() == c {
            1nat
        } else {
            0nat
        }
    }
}

/// Digits with exactly one decimal point among them.
pub open spec fn digits_with_one_dot(s: Seq<char>) -> bool {
    &&& forall|i: int| 0 <= i < s.len() ==> (is_digit(#[trigger] s[i]) || s[i] == '.')
    &&& count_char(s, '.') == 1
}

/// At least two characters, the first and the last a single quote.
pub open spec fn is_quoted(s: Seq<char>) -> bool {
    s.len() >= 2 && s[0] == '\'' && s.last() == '\''
}

pub open spec fn kw_null() -> Seq<char> {
    seq!['n', 'u', 'l', 'l']
}

pub open spec fn kw_bool() -> Seq<char> {
    seq!['b', 'o', 'o', 'l']
}

pub open spec fn kw_int() -> Seq<char> {
    seq!['i', 'n', 't']
}

pub open spec fn kw_real() -> Seq<char> {
    seq!['r', 'e', 'a', 'l']
}

pub open spec fn kw_text() -> Seq<char> {
    seq!['t', 'e', 'x', 't']
}

pub open spec fn kw_symbol() -> Seq<char> {
    seq!['s', 'y', 'm', 'b', 'o', 'l']
}

pub open spec fn kw_true() -> Seq<char> {
    seq!['t', 'r', 'u', 'e']
}

pub open spec fn kw_false() -> Seq<char> {
    seq!['f', 'a', 'l', 's', 'e']
}

/// `c` equals the lower-case ASCII letter or symbol `k`, ignoring ASCII case.
pub open spec fn char_eq_ignore_case(c: char, k: char) -> bool {
    c == k || ('a' <= k && k <= 'z' && c as u32 + 32 == k as u32)
}

/// `s` equals the lower-case keyword `kw`, ignoring ASCII case.
pub open spec fn eq_ignore_case(s: Seq<char>, kw: Seq<char>) -> bool {
    &&& s.len() == kw.len()
    &&& forall|i: int| 0 <= i < s.len() ==> char_eq_ignore_case(#[trigger] s[i], kw[i])
}

/// The primitive kinds a typed value can have.
#[derive(Clone, Copy, Debug, PartialEq, Eq, Structural)]
pub enum Kind {
    Null,
    Bool,
    Int,
    Real,
    Text,
    Symbol,
}

/// The kind that a term without annotation denotes; the rules are tried in order.
pub open spec fn infer_kind(s: Seq<char>) -> Kind {
    if all_digits(s) {
        Kind::Int
    } else if digits_with_one_dot(s) {
        Kind::Real
    } else if s == kw_null() {
        Kind::Null
    } else if s == kw_true() || s == kw_false() {
        Kind::Bool
    } else if is_quoted(s) {
        Kind::Text
    } else {
        Kind::Symbol
    }
}

/// The lower-case name of a kind, as written in a type annotation.
pub open spec fn kind_name(k: Kind) -> Seq<char> {
    match k {
        Kind::Null => kw_null(),
        Kind::Bool => kw_bool(),
        Kind::Int => kw_int(),
        Kind::Real => kw_real(),
        Kind::Text => kw_text(),
        Kind::Symbol => kw_symbol(),
    }
}

/// The kind named by a type annotation, matched ignoring ASCII case.
pub open spec fn kind_of_name(t: Seq<char>) -> Option<Kind> {
    if eq_ignore_case(t, kw_null()) {
        Some(Kind::Null)
    } else if eq_ignore_case(t, kw_bool()) {
        Some(Kind::Bool)
    } else if eq_ignore_case(t, kw_int()) {
        Some(Kind::Int)
    } else if eq_ignore_case(t, kw_real()) {
        Some(Kind::Real)
    } else if eq_ignore_case(t, kw_text()) {
        Some(Kind::Text)
    } else if eq_ignore_case(t, kw_symbol()) {
        Some(Kind::Symbol)
    } else {
        None
    }
}

/// Whether `s` equals the lower-case keyword `kw`, ignoring ASCII case.
fn str_eq_ignore_case(s: &str, kw: &str) -> (r: bool)
    ensures
        r == eq_ignore_case(s@, kw@),
{
    let n = s.unicode_len();
    if n != kw.unicode_len() {
        return false;
    }
    let mut i: usize = 0;
    while i < n
        invariant
            n == s@.len(),
            n == kw@.len(),
            i <= n,
            forall|j: int| 0 <= j < i ==> char_eq_ignore_case(#[trigger] s@[j], kw@[j]),
        decreases n - i,
    {
        let c = s.get_char(i);
        let k = kw.get_char(i);
        if !(c == k || ('a' <= k && k <= 'z' && c as u32 + 32 == k as u32)) {
            return false;
        }
        i = i + 1;
    }
    true
}

fn str_all_digits(s: &str) -> (r: bool)
    ensures
        r == all_digits(s@),
{
    let n = s.unicode_len();
    let mut i: usize = 0;
    while i < n
        invariant
            n == s@.len(),
            i <= n,
            forall|j: int| 0 <= j < i ==> is_digit(#[trigger] s@[j]),
        decreases n - i,
    {
        let c = s.get_char(i);
        if !('0' <= c && c <= '9') {
            return false;
        }
        i = i + 1;
    }
    true
}

fn str_digits_with_one_dot(s: &str) -> (r: bool)
    ensures
        r == digits_with_one_dot(s@),
{
    let n = s.unicode_len();
    let mut i: usize = 0;
    let mut dots: usize = 0;
    while i < n
        invariant
            n == s@.len(),
            i <= n,
            dots == count_char(s@.take(i as int), '.'),
            dots <= i,
            forall|j: int| 0 <= j < i ==> (is_digit(#[trigger] s@[j]) || s@[j] == '.'),
        decreases n - i,
    {
        let c = s.get_char(i);
        assert(s@.take(i + 1).drop_last() =~= s@.take(i as int));
        if c == '.' {
            dots = dots + 1;
        } else if !('0' <= c && c <= '9') {
            return false;
        }
        i = i + 1;
    }
    assert(s@.take(n as int) =~= s@);
    dots == 1
}

pub(crate) fn str_eq_exact(s: &str, kw: &str) -> (r: bool)
    ensures
        r == (s@ == kw@),
{
    let n = s.unicode_len();
    if n != kw.unicode_len() {
        return false;
    }
    let mut i: usize = 0;
    while i < n
        invariant
            n == s@.len(),
            n == kw@.len(),
            i <= n,
            forall|j: int| 0 <= j < i ==> #[trigger] s@[j] == kw@[j],
        decreases n - i,
    {
        if s.get_char(i) != kw.get_char(i) {
            return false;
        }
        i = i + 1;
    }
    assert(s@ =~= kw@);
    true
}

fn str_is_quoted(s: &str) -> (r: bool)
    ensures
        r == is_quoted(s@),
{
    let n = s.unicode_len();
    n >= 2 && s.get_char(0) == '\'' && s.get_char(n - 1) == '\''
}

impl Kind {
    /// The lower-case name of this kind.
    pub fn name(&self) -> (r: String)
        ensures
            r@ == kind_name(*self),
    {
        proof {
            reveal_strlit("null");
            reveal_strlit("bool");
            reveal_strlit("int");
            reveal_strlit("real");
            reveal_strlit("text");
            reveal_strlit("symbol");
        }
        match self {
            Kind::Null => String::from_str("null"),
            Kind::Bool => String::from_str("bool"),
            Kind::Int => String::from_str("int"),
            Kind::Real => String::from_str("real"),
            Kind::Text => String::from_str("text"),
            Kind::Symbol => String::from_str("symbol"),
        }
    }

    /// The kind named by a type annotation, ignoring ASCII case.
    pub fn from_name(t: &str) -> (r: Option<Kind>)
        ensures
            r == kind_of_name(t@),
    {
        proof {
            reveal_strlit("null");
            reveal_strlit("bool");
            reveal_strlit("int");
            reveal_strlit("real");
            reveal_strlit("text");
            reveal_strlit("symbol");
        }
        if str_eq_ignore_case(t, "null") {
            Some(Kind::Null)
        } else if str_eq_ignore_case(t, "bool") {
            Some(Kind::Bool)
        } else if str_eq_ignore_case(t, "int") {
            Some(Kind::Int)
        } else if str_eq_ignore_case(t, "real") {
            Some(Kind::Real)
        } else if str_eq_ignore_case(t, "text") {
            Some(Kind::Text)
        } else if str_eq_ignore_case(t, "symbol") {
            Some(Kind::Symbol)
        } else {
            None
        }
    }
}

/// Largest number of digits after the decimal point that a real keeps.
pub const MAX_SCALE: u32 = 18;

/// Magnitude of the most negative `i64`.
pub const I64_MAGNITUDE: u128 = 9223372036854775808;

/// An exact decimal number, `mantissa / 10^scale`.
#[derive(Clone, Copy, Debug, PartialEq, Eq, Structural)]
pub struct Decimal {
    pub mantissa: i64,
    pub scale: u32,
}

/// A typed value: a literal of one of the primitive kinds, or a symbol that
/// names something rather than denoting a value.
#[derive(Clone, Debug, PartialEq)]
pub enum DataType {
    Null,
    Bool(bool),
    Int(i64),
    Real(Decimal),
    Text(String),
    Symbol(String),
}

/// The mathematical meaning of a typed value; a real is `(mantissa, scale)`.
pub enum Value {
    Null,
    Bool(bool),
    Int(int),
    Real(int, nat),
    Text(Seq<char>),
    Symbol(Seq<char>),
}

impl View for DataType {
    type V = Value;

    open spec fn view(&self) -> Value {
        match self {
            DataType::Null => Value::Null,
            DataType::Bool(b) => Value::Bool(*b),
            DataType::Int(n) => Value::Int(*n as int),
            DataType::Real(d) => Value::Real(d.mantissa as int, d.scale as nat),
            DataType::Text(t) => Value::Text(t@),
            DataType::Symbol(t) => Value::Symbol(t@),
        }
    }
}

pub open spec fn opt_view(o: Option<DataType>) -> Option<Value> {
    match o {
        Some(d) => Some(d@),
        None => None,
    }
}

pub open spec fn digit_value(c: char) -> int {
    c as u32 as int - '0' as u32 as int
}

/// Reads digits and decimal points left to right: the digits read as one
/// integer, how many digits follow the first point, and whether a point was seen.
pub open spec fn dec_parse(s: Seq<char>) -> (int, nat, bool)
    decreases s.len(),
{
    if s.len() == 0 {
        (0, 0, false)
    } else {
        let p = dec_parse(s.drop_last());
        if s.last() == '.' {
            (p.0, p.1, true)
        } else {
            (10 * p.0 + digit_value(s.last()), if p.2 {
                p.1 + 1
            } else {
                p.1
            }, p.2)
        }
    }
}

pub open spec fn is_negative(v: Seq<char>) -> bool {
    v.len() > 0 && v[0] == '-'
}

pub open spec fn has_sign(v: Seq<char>) -> bool {
    v.len() > 0 && (v[0] == '-' || v[0] == '+')
}

/// What follows an optional leading sign.
pub open spec fn unsigned_part(v: Seq<char>) -> Seq<char> {
    if has_sign(v) {
        v.skip(1)
    } else {
        v
    }
}

/// Digits and points only, at most one point, at least one digit.
pub open spec fn decimal_body(b: Seq<char>) -> bool {
    &&& forall|i: int| 0 <= i < b.len() ==> (is_digit(#[trigger] b[i]) || b[i] == '.')
    &&& count_char(b, '.') <= 1
    &&& b.len() > count_char(b, '.')
}

/// An integer literal: an optional sign, then one or more digits.
pub open spec fn int_literal(v: Seq<char>) -> Option<int> {
    let b = unsigned_part(v);
    if b.len() > 0 && all_digits(b) {
        Some(
            if is_negative(v) {
                -dec_parse(b).0
            } else {
                dec_parse(b).0
            },
        )
    } else {
        None
    }
}

/// A real literal: an optional sign, then digits with at most one point.
pub open spec fn real_literal(v: Seq<char>) -> Option<(int, nat)> {
    let b = unsigned_part(v);
    if decimal_body(b) {
        Some(
            (
                if is_negative(v) {
                    -dec_parse(b).0
                } else {
                    dec_parse(b).0
                },
                dec_parse(b).1,
            ),
        )
    } else {
        None
    }
}

pub open spec fn in_i64(n: int) -> bool {
    i64::MIN <= n <= i64::MAX
}

/// The payload of a text literal: the quotes stripped where it has them.
pub open spec fn unquote(v: Seq<char>) -> Seq<char> {
    if is_quoted(v) {
        v.subrange(1, v.len() - 1)
    } else {
        v
    }
}

/// The value that the text `v` denotes as a value of kind `k`, if any.
pub open spec fn value_of_kind(v: Seq<char>, k: Kind) -> Option<Value> {
    match k {
        Kind::Null => Some(Value::Null),
        Kind::Bool => if eq_ignore_case(v, kw_true()) {
            Some(Value::Bool(true))
        } else if eq_ignore_case(v, kw_false()) {
            Some(Value::Bool(false))
        } else {
            None
        },
        Kind::Int => match int_literal(v) {
            Some(n) => if in_i64(n) {
                Some(Value::Int(n))
            } else {
                None
            },
            None => None,
        },
        Kind::Real => match real_literal(v) {
            Some(p) => if in_i64(p.0) && p.1 <= MAX_SCALE {
                Some(Value::Real(p.0, p.1))
            } else {
                None
            },
            None => None,
        },
        Kind::Text => Some(Value::Text(unquote(v))),
        Kind::Symbol => Some(Value::Symbol(v)),
    }
}

/// The value of text `v` under the type annotation `t`.
pub open spec fn annotated_value(v: Seq<char>, t: Seq<char>) -> Option<Value> {
    match kind_of_name(t) {
        Some(k) => value_of_kind(v, k),
        None => None,
    }
}

/// The value of a term without annotation, under its inferred kind.
pub open spec fn inferred_value(v: Seq<char>) -> Option<Value> {
    value_of_kind(v, infer_kind(v))
}

/// The zero value of the type named `t`; symbols have none.
pub open spec fn default_value(t: Seq<char>) -> Option<Value> {
    match kind_of_name(t) {
        Some(Kind::Null) => Some(Value::Null),
        Some(Kind::Bool) => Some(Value::Bool(false)),
        Some(Kind::Int) => Some(Value::Int(0)),
        Some(Kind::Real) => Some(Value::Real(0, 0)),
        Some(Kind::Text) => Some(Value::Text(Seq::empty())),
        _ => None,
    }
}

proof fn lemma_count_char_prefix(s: Seq<char>, c: char, j: int)
    requires
        0 <= j <= s.len(),
    ensures
        count_char(s.take(j), c) <= count_char(s, c),
    decreases s.len(),
{
    if j < s.len() {
        assert(s.drop_last().take(j) =~= s.take(j));
        lemma_count_char_prefix(s.drop_last(), c, j);
    } else {
        assert(s.take(j) =~= s);
    }
}

proof fn lemma_dec_parse_prefix(s: Seq<char>, j: int)
    requires
        0 <= j <= s.len(),
        forall|i: int| 0 <= i < s.len() ==> (is_digit(#[trigger] s[i]) || s[i] == '.'),
    ensures
        0 <= dec_parse(s.take(j)).0 <= dec_parse(s).0,
        dec_parse(s.take(j)).1 <= dec_parse(s).1,
    decreases s.len(),
{
    if j < s.len() {
        assert(s.drop_last().take(j) =~= s.take(j));
        lemma_dec_parse_prefix(s.drop_last(), j);
        assert(is_digit(s[s.len() - 1]) || s[s.len() - 1] == '.');
    } else {
        assert(s.take(j) =~= s);
        if s.len() > 0 {
            lemma_dec_parse_prefix(s.drop_last(), s.len() - 1);
            assert(s.drop_last().take(s.len() - 1) =~= s.drop_last());
            assert(is_digit(s[s.len() - 1]) || s[s.len() - 1] == '.');
        }
    }
}

proof fn lemma_all_digits_no_point(s: Seq<char>)
    requires
        all_digits(s),
    ensures
        count_char(s, '.') == 0,
        dec_parse(s).1 == 0,
        !dec_parse(s).2,
    decreases s.len(),
{
    if s.len() > 0 {
        lemma_all_digits_no_point(s.drop_last());
        assert(is_digit(s[s.len() - 1]));
    }
}

/// Reads `s` from index `start` as digits with at most one point (none unless
/// `allow_point`), returning the digits as one integer and the number of
/// digits after the point, within the bounds that a decimal can hold.
fn read_decimal(s: &str, start: usize, allow_point: bool) -> (r: Option<(u128, u32)>)
    requires
        start <= s@.len(),
    ensures
        ({
            let b = s@.skip(start as int);
            let ok = decimal_body(b) && (allow_point || all_digits(b)) && dec_parse(b).0
                <= I64_MAGNITUDE && dec_parse(b).1 <= MAX_SCALE;
            match r {
                Some(p) => ok && p.0 == dec_parse(b).0 && p.1 == dec_parse(b).1,
                None => !ok,
            }
        }),
{
    let n = s.unicode_len();
    let ghost b = s@.skip(start as int);
    let mut i: usize = start;
    let mut m: u128 = 0;
    let mut k: u32 = 0;
    let mut seen_point = false;
    let mut points: usize = 0;
    while i < n
        invariant
            n == s@.len(),
            start <= i <= n,
            b == s@.skip(start as int),
            m == dec_parse(b.take(i - start)).0,
            k == dec_parse(b.take(i - start)).1,
            seen_point == dec_parse(b.take(i - start)).2,
            points == count_char(b.take(i - start), '.'),
            points <= 1,
            seen_point == (points == 1),
            m <= I64_MAGNITUDE,
            k <= MAX_SCALE,
            forall|j: int| 0 <= j < i - start ==> (is_digit(#[trigger] b[j]) || b[j] == '.'),
            !allow_point ==> all_digits(b.take(i - start)),
        decreases n - i,
    {
        let c = s.get_char(i);
        let ghost pre = b.take(i - start);
        let ghost next = b.take(i - start + 1);
        proof {
            assert(next.drop_last() =~= pre);
            assert(b[i - start] == c);
        }
        if c == '.' {
            if !allow_point || seen_point {
                proof {
                    lemma_count_char_prefix(b, '.', i - start + 1);
                }
                return None;
            }
            seen_point = true;
            points = 1;
        } else if '0' <= c && c <= '9' {
            let d = (c as u32 - '0' as u32) as u128;
            m = 10 * m + d;
            if seen_point {
                k = k + 1;
            }
            if m > I64_MAGNITUDE || k > MAX_SCALE {
                proof {
                    if decimal_body(b) {
                        lemma_dec_parse_prefix(b, i - start + 1);
                    }
                }
                return None;
            }
        } else {
            return None;
        }
        i = i + 1;
        proof {
            assert forall|j: int| 0 <= j < i - start implies (is_digit(#[trigger] b[j]) || b[j] == '.') by {
                if j < i - start - 1 {
                } else {
                    assert(b[j] == c);
                }
            }
            if !allow_point {
                assert forall|j: int| 0 <= j < i - start implies is_digit(#[trigger] b.take(i - start)[j]) by {
                    if j < i - start - 1 {
                        assert(b.take(i - start)[j] == pre[j]);
                    }
                }
            }
        }
    }
    proof {
        assert(b.take(n - start) =~= b);
    }
    if points < n - start {
        Some((m, k))
    } else {
        None
    }
}

/// Parses an integer literal that fits an `i64`.
fn parse_int(v: &str) -> (r: Option<i64>)
    ensures
        ({
            match int_literal(v@) {
                Some(n) => if in_i64(n) {
                    r == Some(n as i64)
                } else {
                    r is None
                },
                None => r is None,
            }
        }),
{
    let n = v.unicode_len();
    let signed = n > 0 && (v.get_char(0) == '-' || v.get_char(0) == '+');
    let negative = n > 0 && v.get_char(0) == '-';
    let start: usize = if signed {
        1
    } else {
        0
    };
    proof {
        assert(v@.skip(0) =~= v@);
    }
    let body = read_decimal(v, start, false);
    proof {
        let b = unsigned_part(v@);
        if b.len() > 0 && all_digits(b) {
            lemma_all_digits_no_point(b);
        }
    }
    match body {
        Some((m, _)) => {
            if negative {
                Some((0 - m as i128) as i64)
            } else if m <= i64::MAX as u128 {
                Some(m as i64)
            } else {
                None
            }
        },
        None => None,
    }
}

/// Parses a real literal into an exact decimal.
fn parse_real(v: &str) -> (r: Option<Decimal>)
    ensures
        ({
            match real_literal(v@) {
                Some(p) => if in_i64(p.0) && p.1 <= MAX_SCALE {
                    r == Some(Decimal { mantissa: p.0 as i64, scale: p.1 as u32 })
                } else {
                    r is None
                },
                None => r is None,
            }
        }),
{
    let n = v.unicode_len();
    let signed = n > 0 && (v.get_char(0) == '-' || v.get_char(0) == '+');
    let negative = n > 0 && v.get_char(0) == '-';
    let start: usize = if signed {
        1
    } else {
        0
    };
    proof {
        assert(v@.skip(0) =~= v@);
    }
    match read_decimal(v, start, true) {
        Some((m, k)) => {
            if negative {
                Some(Decimal { mantissa: (0 - m as i128) as i64, scale: k })
            } else if m <= i64::MAX as u128 {
                Some(Decimal { mantissa: m as i64, scale: k })
            } else {
                None
            }
        },
        None => None,
    }
}

/// Parses `true` or `false`, ignoring ASCII case.
fn parse_bool(v: &str) -> (r: Option<bool>)
    ensures
        r == (if eq_ignore_case(v@, kw_true()) {
            Some(true)
        } else if eq_ignore_case(v@, kw_false()) {
            Some(false)
        } else {
            None::<bool>
        }),
{
    proof {
        reveal_strlit("true");
        reveal_strlit("false");
    }
    if str_eq_ignore_case(v, "true") {
        Some(true)
    } else if str_eq_ignore_case(v, "false") {
        Some(false)
    } else {
        None
    }
}

/// The payload of a text literal, its quotes stripped where it has them.
fn unquote_text(v: &str) -> (r: String)
    ensures
        r@ == unquote(v@),
{
    let n = v.unicode_len();
    if str_is_quoted(v) {
        String::from_str(v.substring_char(1, n - 1))
    } else {
        String::from_str(v)
    }
}

impl DataType {
    /// The value that `raw_value` denotes as a value of kind `kind`, if any.
    pub fn from_kind(raw_value: &str, kind: Kind) -> (r: Option<DataType>)
        ensures
            opt_view(r) == value_of_kind(raw_value@, kind),
    {
        match kind {
            Kind::Null => Some(DataType::Null),
            Kind::Bool => match parse_bool(raw_value) {
                Some(b) => Some(DataType::Bool(b)),
                None => None,
            },
            Kind::Int => match parse_int(raw_value) {
                Some(n) => Some(DataType::Int(n)),
                None => None,
            },
            Kind::Real => match parse_real(raw_value) {
                Some(d) => Some(DataType::Real(d)),
                None => None,
            },
            Kind::Text => Some(DataType::Text(unquote_text(raw_value))),
            Kind::Symbol => Some(DataType::Symbol(String::from_str(raw_value))),
        }
    }

    /// The value of `raw_value` under the type annotation `raw_type`; `None`
    /// when the type is unknown or the value does not parse as that type.
    pub fn from_string(raw_value: &str, raw_type: &str) -> (r: Option<DataType>)
        ensures
            opt_view(r) == annotated_value(raw_value@, raw_type@),
    {
        match Kind::from_name(raw_type) {
            Some(k) => DataType::from_kind(raw_value, k),
            None => None,
        }
    }

    /// The value of a term without annotation, under its inferred kind.
    pub fn from_inferred(raw_value: &str) -> (r: Option<DataType>)
        ensures
            opt_view(r) == inferred_value(raw_value@),
    {
        DataType::from_kind(raw_value, Util::infer_kind(raw_value))
    }

    /// The zero value of the type named `raw_type`; `None` for `symbol` and
    /// for unknown types.
    pub fn from_type_default_value(raw_type: &str) -> (r: Option<DataType>)
        ensures
            opt_view(r) == default_value(raw_type@),
    {
        match Kind::from_name(raw_type) {
            Some(Kind::Null) => Some(DataType::Null),
            Some(Kind::Bool) => Some(DataType::Bool(false)),
            Some(Kind::Int) => Some(DataType::Int(0)),
            Some(Kind::Real) => Some(DataType::Real(Decimal { mantissa: 0, scale: 0 })),
            Some(Kind::Text) => Some(DataType::Text(String::new())),
            _ => None,
        }
    }
}

pub open spec fn pow10(k: nat) -> int
    decreases k,
{
    if k == 0 {
        1
    } else {
        10 * pow10((k - 1) as nat)
    }
}

/// The numeric reading of a value, as `(mantissa, scale)`: integers and reals only.
pub open spec fn numeric(v: Value) -> Option<(int, nat)> {
    match v {
        Value::Int(n) => Some((n, 0nat)),
        Value::Real(m, k) => Some((m, k)),
        _ => None,
    }
}

/// The sign of `a - b` for two decimals given as `(mantissa, scale)`.
pub open spec fn cmp_decimal(a: (int, nat), b: (int, nat)) -> int {
    let x = a.0 * pow10(b.1);
    let y = b.0 * pow10(a.1);
    if x < y {
        -1
    } else if x > y {
        1
    } else {
        0
    }
}

/// The sign of the lexicographic comparison of `a` with `b`, by code point.
pub open spec fn lex_cmp(a: Seq<char>, b: Seq<char>) -> int
    decreases a.len(),
{
    if a.len() == 0 {
        if b.len() == 0 {
            0
        } else {
            -1
        }
    } else if b.len() == 0 {
        1
    } else if a[0] == b[0] {
        lex_cmp(a.skip(1), b.skip(1))
    } else if (a[0] as u32) < (b[0] as u32) {
        -1
    } else {
        1
    }
}

/// Equality of two values: the same kind and the same payload, reals compared
/// by the number they denote.
pub open spec fn value_eq(l: Value, r: Value) -> bool {
    match (l, r) {
        (Value::Real(a, b), Value::Real(c, d)) => cmp_decimal((a, b), (c, d)) == 0,
        _ => l == r,
    }
}

/// The sign of `l - r` where the two are ordered: both numeric, or both text.
pub open spec fn order(l: Value, r: Value) -> Option<int> {
    match (numeric(l), numeric(r)) {
        (Some(a), Some(b)) => Some(cmp_decimal(a, b)),
        _ => match (l, r) {
            (Value::Text(a), Value::Text(b)) => Some(lex_cmp(a, b)),
            _ => None,
        },
    }
}

pub open spec fn op_eq() -> Seq<char> {
    seq!['=', '=']
}

pub open spec fn op_ne() -> Seq<char> {
    seq!['!', '=']
}

pub open spec fn op_ge() -> Seq<char> {
    seq!['>', '=']
}

pub open spec fn op_le() -> Seq<char> {
    seq!['<', '=']
}

pub open spec fn op_gt() -> Seq<char> {
    seq!['>']
}

pub open spec fn op_lt() -> Seq<char> {
    seq!['<']
}

/// The result of `l op r`; an ordering between values that are not ordered is
/// false; `None` when `op` is not one of the six operators.
pub open spec fn compare_values(l: Value, r: Value, op: Seq<char>) -> Option<bool> {
    if op == op_eq() {
        Some(value_eq(l, r))
    } else if op == op_ne() {
        Some(!value_eq(l, r))
    } else if op == op_ge() {
        Some(order(l, r) matches Some(c) && c >= 0)
    } else if op == op_gt() {
        Some(order(l, r) matches Some(c) && c > 0)
    } else if op == op_le() {
        Some(order(l, r) matches Some(c) && c <= 0)
    } else if op == op_lt() {
        Some(order(l, r) matches Some(c) && c < 0)
    } else {
        None
    }
}

proof fn lemma_pow10_mono(k: nat, j: nat)
    requires
        k <= j,
    ensures
        1 <= pow10(k) <= pow10(j),
    decreases j,
{
    if j > k {
        lemma_pow10_mono(k, (j - 1) as nat);
    } else if k > 0 {
        lemma_pow10_mono(0, (k - 1) as nat);
    }
}

proof fn lemma_pow10_bound(k: nat)
    requires
        k <= MAX_SCALE,
    ensures
        1 <= pow10(k) <= 1_000_000_000_000_000_000,
        k < MAX_SCALE ==> pow10(k) <= 100_000_000_000_000_000,
{
    reveal_with_fuel(pow10, 19);
    lemma_pow10_mono(k, 18);
    if k < MAX_SCALE {
        lemma_pow10_mono(k, 17);
    }
}

fn pow10_exec(k: u32) -> (r: i128)
    requires
        k <= MAX_SCALE,
    ensures
        r == pow10(k as nat),
{
    let mut r: i128 = 1;
    let mut i: u32 = 0;
    while i < k
        invariant
            i <= k <= MAX_SCALE,
            r == pow10(i as nat),
        decreases k - i,
    {
        proof {
            lemma_pow10_bound(i as nat);
        }
        r = r * 10;
        i = i + 1;
    }
    r
}

/// Sign of `a - b` for two decimals whose scales are in bounds.
fn cmp_decimal_exec(am: i64, ak: u32, bm: i64, bk: u32) -> (r: i8)
    requires
        ak <= MAX_SCALE,
        bk <= MAX_SCALE,
    ensures
        r as int == cmp_decimal((am as int, ak as nat), (bm as int, bk as nat)),
{
    let pa = pow10_exec(ak);
    let pb = pow10_exec(bk);
    proof {
        lemma_pow10_bound(ak as nat);
        lemma_pow10_bound(bk as nat);
        assert(-0x8000_0000_0000_0000_0000_0000_0000_0000 <= am as int * pb <= 0x7fff_ffff_ffff_ffff_ffff_ffff_ffff_ffff) by (nonlinear_arith)
            requires
                i64::MIN <= am <= i64::MAX,
                1 <= pb <= 1_000_000_000_000_000_000,
        ;
        assert(-0x8000_0000_0000_0000_0000_0000_0000_0000 <= bm as int * pa <= 0x7fff_ffff_ffff_ffff_ffff_ffff_ffff_ffff) by (nonlinear_arith)
            requires
                i64::MIN <= bm <= i64::MAX,
                1 <= pa <= 1_000_000_000_000_000_000,
        ;
    }
    let x = am as i128 * pb;
    let y = bm as i128 * pa;
    if x < y {
        -1
    } else if x > y {
        1
    } else {
        0
    }
}

/// Sign of the lexicographic comparison of `a` with `b`, by code point.
fn lex_cmp_exec(a: &str, b: &str) -> (r: i8)
    ensures
        r as int == lex_cmp(a@, b@),
{
    let na = a.unicode_len();
    let nb = b.unicode_len();
    let mut i: usize = 0;
    proof {
        assert(a@.skip(0) =~= a@);
        assert(b@.skip(0) =~= b@);
    }
    while i < na && i < nb
        invariant
            na == a@.len(),
            nb == b@.len(),
            i <= na,
            i <= nb,
            lex_cmp(a@, b@) == lex_cmp(a@.skip(i as int), b@.skip(i as int)),
        decreases na - i,
    {
        let c = a.get_char(i);
        let d = b.get_char(i);
        if c != d {
            if (c as u32) < (d as u32) {
                return -1;
            }
            return 1;
        }
        proof {
            assert(a@.skip(i as int).skip(1) =~= a@.skip(i + 1));
            assert(b@.skip(i as int).skip(1) =~= b@.skip(i + 1));
        }
        i = i + 1;
    }
    if i < na {
        1
    } else if i < nb {
        -1
    } else {
        0
    }
}

impl DataType {
    /// A real's scale is within the bounds that comparison handles.
    pub open spec fn well_formed(&self) -> bool {
        match self {
            DataType::Real(d) => d.scale <= MAX_SCALE,
            _ => true,
        }
    }

    /// Equality of two values: the same kind and the same payload.
    pub fn value_eq(&self, other: &DataType) -> (r: bool)
        requires
            self.well_formed(),
            other.well_formed(),
        ensures
            r == value_eq(self@, other@),
    {
        match (self, other) {
            (DataType::Null, DataType::Null) => true,
            (DataType::Bool(a), DataType::Bool(b)) => *a == *b,
            (DataType::Int(a), DataType::Int(b)) => *a == *b,
            (DataType::Real(a), DataType::Real(b)) => cmp_decimal_exec(
                a.mantissa,
                a.scale,
                b.mantissa,
                b.scale,
            ) == 0,
            (DataType::Text(a), DataType::Text(b)) => {
                let c = lex_cmp_exec(a.as_str(), b.as_str());
                proof {
                    lemma_lex_cmp_zero(a@, b@);
                }
                c == 0
            },
            (DataType::Symbol(a), DataType::Symbol(b)) => str_eq_exact(a.as_str(), b.as_str()),
            _ => false,
        }
    }

    /// The sign of `self - other` where the two are ordered.
    pub fn order(&self, other: &DataType) -> (r: Option<i8>)
        requires
            self.well_formed(),
            other.well_formed(),
        ensures
            match order(self@, other@) {
                Some(c) => r is Some && r->0 as int == c,
                None => r is None,
            },
    {
        match (self, other) {
            (DataType::Int(a), DataType::Int(b)) => Some(cmp_decimal_exec(*a, 0, *b, 0)),
            (DataType::Int(a), DataType::Real(b)) => Some(
                cmp_decimal_exec(*a, 0, b.mantissa, b.scale),
            ),
            (DataType::Real(a), DataType::Int(b)) => Some(
                cmp_decimal_exec(a.mantissa, a.scale, *b, 0),
            ),
            (DataType::Real(a), DataType::Real(b)) => Some(
                cmp_decimal_exec(a.mantissa, a.scale, b.mantissa, b.scale),
            ),
            (DataType::Text(a), DataType::Text(b)) => Some(lex_cmp_exec(a.as_str(), b.as_str())),
            _ => None,
        }
    }
}

proof fn lemma_lex_cmp_zero(a: Seq<char>, b: Seq<char>)
    ensures
        lex_cmp(a, b) == 0 <==> a == b,
    decreases a.len(),
{
    if a.len() == 0 && b.len() == 0 {
        assert(a =~= b);
    }
    if a.len() > 0 && b.len() > 0 {
        lemma_lex_cmp_zero(a.skip(1), b.skip(1));
        if a.skip(1) == b.skip(1) && a[0] == b[0] {
            assert(a =~= seq![a[0]] + a.skip(1));
            assert(b =~= seq![b[0]] + b.skip(1));
        }
        if a == b {
            assert(a.skip(1) =~= b.skip(1));
        }
    }
}

/// A comparison: left term, right term and operator.
#[derive(Clone, Debug, PartialEq)]
pub struct BinaryExpr(pub DataType, pub DataType, pub String);

impl BinaryExpr {
    pub fn new(lterm: DataType, rterm: DataType, operator: String) -> (r: BinaryExpr)
        ensures
            r.0 == lterm,
            r.1 == rterm,
            r.2 == operator,
    {
        BinaryExpr(lterm, rterm, operator)
    }

    pub open spec fn well_formed(&self) -> bool {
        self.0.well_formed() && self.1.well_formed()
    }

    /// Evaluates the comparison; `None` when the operator is not one of
    /// `==`, `!=`, `>=`, `>`, `<=`, `<`.
    pub fn compare(&self) -> (r: Option<bool>)
        requires
            self.well_formed(),
        ensures
            r == compare_values(self.0@, self.1@, self.2@),
    {
        proof {
            reveal_strlit("==");
            reveal_strlit("!=");
            reveal_strlit(">=");
            reveal_strlit(">");
            reveal_strlit("<=");
            reveal_strlit("<");
            assert("=="@ =~= op_eq());
            assert("!="@ =~= op_ne());
            assert(">="@ =~= op_ge());
            assert(">"@ =~= op_gt());
            assert("<="@ =~= op_le());
            assert("<"@ =~= op_lt());
        }
        let op = self.2.as_str();
        if str_eq_exact(op, "==") {
            Some(self.0.value_eq(&self.1))
        } else if str_eq_exact(op, "!=") {
            Some(!self.0.value_eq(&self.1))
        } else if str_eq_exact(op, ">=") {
            match self.0.order(&self.1) {
                Some(c) => Some(c >= 0),
                None => Some(false),
            }
        } else if str_eq_exact(op, ">") {
            match self.0.order(&self.1) {
                Some(c) => Some(c > 0),
                None => Some(false),
            }
        } else if str_eq_exact(op, "<=") {
            match self.0.order(&self.1) {
                Some(c) => Some(c <= 0),
                None => Some(false),
            }
        } else if str_eq_exact(op, "<") {
            match self.0.order(&self.1) {
                Some(c) => Some(c < 0),
                None => Some(false),
            }
        } else {
            None
        }
    }
}

/// The pattern that a variable name matches exactly once: one identifier
/// between word boundaries.
pub const IDENTIFIER_PATTERN: &'static str = "(\\b[A-Za-z_][A-Za-z0-9_]*\\b)";

/// The number of non-overlapping matches that the regex crate finds for the
/// regular expression `pattern` in `text`; `None` where `pattern` does not compile.
pub uninterp spec fn regex_match_count(pattern: Seq<char>, text: Seq<char>) -> Option<nat>;

/// Relies on `regex::Regex::new` to compile `pattern` and on
/// `regex::Regex::find_iter` to count its non-overlapping matches in `text`.
#[verifier::external_body]
fn count_regex_matches(pattern: &str, text: &str) -> (r: Option<usize>)
    ensures
        match r {
            Some(n) => regex_match_count(pattern@, text@) == Some(n as nat),
            None => regex_match_count(pattern@, text@) is None,
        },
{
    match regex::Regex::new(pattern) {
        Ok(re) => Some(re.find_iter(text).count()),
        Err(_) => None,
    }
}

/// `name` holds exactly one identifier.
pub open spec fn single_word(name: Seq<char>) -> bool {
    regex_match_count(IDENTIFIER_PATTERN@, name) == Some(1nat)
}

proof fn lemma_count_char_witness(s: Seq<char>, c: char)
    requires
        count_char(s, c) > 0,
    ensures
        exists|i: int| 0 <= i < s.len() && s[i] == c,
    decreases s.len(),
{
    if s.last() != c {
        lemma_count_char_witness(s.drop_last(), c);
        let i = choose|i: int| 0 <= i < s.drop_last().len() && s.drop_last()[i] == c;
        assert(s[i] == c);
    } else {
        assert(s[s.len() - 1] == c);
    }
}

/// A term of ASCII digits only is inferred to be an integer.
pub proof fn lemma_digits_infer_int(t: Seq<char>)
    requires
        all_digits(t),
    ensures
        infer_kind(t) == Kind::Int,
{
}

/// A term of ASCII digits with exactly one decimal point is inferred to be a real.
pub proof fn lemma_one_point_infers_real(t: Seq<char>)
    requires
        digits_with_one_dot(t),
    ensures
        infer_kind(t) == Kind::Real,
{
    lemma_count_char_witness(t, '.');
    let i = choose|i: int| 0 <= i < t.len() && t[i] == '.';
    assert(!is_digit(t[i]));
}

/// The text `s` between single quotes is inferred to be text, and its value
/// is `s` itself.
pub proof fn lemma_quoted_infers_text(s: Seq<char>)
    ensures
        infer_kind(seq!['\''] + s + seq!['\'']) == Kind::Text,
        inferred_value(seq!['\''] + s + seq!['\'']) == Some(Value::Text(s)),
{
    let q = seq!['\''] + s + seq!['\''];
    assert(q[0] == '\'');
    assert(!is_digit(q[0]));
    assert(q != kw_null() && q != kw_true() && q != kw_false()) by {
        if q == kw_null() {
            assert(q[0] == 'n');
        }
        if q == kw_true() {
            assert(q[0] == 't');
        }
        if q == kw_false() {
            assert(q[0] == 'f');
        }
    }
    assert(q.subrange(1, q.len() - 1) =~= s);
}

/// The decimal digit for `d`, below ten.
pub open spec fn digit_char(d: int) -> char {
    seq!['0', '1', '2', '3', '4', '5', '6', '7', '8', '9'][d]
}

/// The canonical decimal text of a natural number: no leading zeros.
pub open spec fn decimal_text(m: nat) -> Seq<char>
    decreases m,
{
    if m < 10 {
        seq![digit_char(m as int)]
    } else {
        decimal_text(m / 10).push(digit_char((m % 10) as int))
    }
}

/// The canonical decimal text of an integer: a minus sign when negative, no
/// plus sign, no leading zeros.
pub open spec fn int_text(n: int) -> Seq<char> {
    if n < 0 {
        seq!['-'] + decimal_text((-n) as nat)
    } else {
        decimal_text(n as nat)
    }
}

proof fn lemma_digit_char(d: int)
    requires
        0 <= d < 10,
    ensures
        is_digit(digit_char(d)),
        digit_value(digit_char(d)) == d,
{
    let ds = seq!['0', '1', '2', '3', '4', '5', '6', '7', '8', '9'];
    assert(ds[0] == '0' && ds[1] == '1' && ds[2] == '2' && ds[3] == '3' && ds[4] == '4');
    assert(ds[5] == '5' && ds[6] == '6' && ds[7] == '7' && ds[8] == '8' && ds[9] == '9');
}

proof fn lemma_decimal_text(m: nat)
    ensures
        decimal_text(m).len() > 0,
        all_digits(decimal_text(m)),
        dec_parse(decimal_text(m)).0 == m,
        is_digit(decimal_text(m)[0]),
    decreases m,
{
    if m < 10 {
        lemma_digit_char(m as int);
        let t = decimal_text(m);
        assert(t.drop_last() =~= Seq::<char>::empty());
        assert(t.last() == digit_char(m as int));
        assert(t.last() != '.');
        assert(dec_parse(t.drop_last()).0 == 0);
        assert(dec_parse(t).0 == 10 * dec_parse(t.drop_last()).0 + digit_value(t.last()));
    } else {
        lemma_decimal_text(m / 10);
        lemma_digit_char((m % 10) as int);
        let t = decimal_text(m);
        assert(t.drop_last() =~= decimal_text(m / 10));
        lemma_all_digits_no_point(decimal_text(m / 10));
        assert(t[0] == decimal_text(m / 10)[0]);
        assert(t.last() == digit_char((m % 10) as int));
        assert(t.last() != '.');
        assert(10 * (m / 10) + m % 10 == m) by (nonlinear_arith);
        assert(dec_parse(t).0 == 10 * dec_parse(t.drop_last()).0 + digit_value(t.last()));
    }
}

/// Reading the canonical text of an in-range integer as an `int` literal
/// gives that integer back, so formatting the value reproduces the text.
pub proof fn lemma_int_round_trip(n: int)
    requires
        in_i64(n),
    ensures
        annotated_value(int_text(n), kw_int()) == Some(Value::Int(n)),
{
    let v = int_text(n);
    assert(eq_ignore_case(kw_int(), kw_int()));
    assert(kind_of_name(kw_int()) == Some(Kind::Int));
    if n < 0 {
        lemma_decimal_text((-n) as nat);
        assert(v.skip(1) =~= decimal_text((-n) as nat));
        assert(unsigned_part(v) == decimal_text((-n) as nat));
    } else {
        lemma_decimal_text(n as nat);
        assert(unsigned_part(v) == decimal_text(n as nat));
    }
}

/// Helpers shared by the parsing rules.
pub struct Util;

impl Util {
    /// The kind that `term` denotes when it carries no annotation.
    pub fn infer_kind(term: &str) -> (r: Kind)
        ensures
            r == infer_kind(term@),
    {
        proof {
            reveal_strlit("null");
            reveal_strlit("true");
            reveal_strlit("false");
            assert("null"@ =~= kw_null());
            assert("true"@ =~= kw_true());
            assert("false"@ =~= kw_false());
        }
        if str_all_digits(term) {
            Kind::Int
        } else if str_digits_with_one_dot(term) {
            Kind::Real
        } else if str_eq_exact(term, "null") {
            Kind::Null
        } else if str_eq_exact(term, "true") || str_eq_exact(term, "false") {
            Kind::Bool
        } else if str_is_quoted(term) {
            Kind::Text
        } else {
            Kind::Symbol
        }
    }

    /// Whether `var_name` holds exactly one identifier, as the identifier
    /// pattern finds them.
    pub fn is_single_word(var_name: String) -> (r: bool)
        ensures
            r == single_word(var_name@),
    {
        match count_regex_matches(IDENTIFIER_PATTERN, var_name.as_str()) {
            Some(n) => n == 1,
            None => false,
        }
    }

    /// The name of the kind that `term` denotes when it carries no annotation.
    pub fn identify_type(term: &String) -> (r: String)
        ensures
            r@ == kind_name(infer_kind(term@)),
    {
        Util::infer_kind(term.as_str()).name()
    }
}

pub open spec fn kw_oncreate() -> Seq<char> {
    seq!['o', 'n', 'c', 'r', 'e', 'a', 't', 'e']
}

pub open spec fn kw_onread() -> Seq<char> {
    seq!['o', 'n', 'r', 'e', 'a', 'd']
}

pub open spec fn kw_onupdate() -> Seq<char> {
    seq!['o', 'n', 'u', 'p', 'd', 'a', 't', 'e']
}

pub open spec fn kw_ondelete() -> Seq<char> {
    seq!['o', 'n', 'd', 'e', 'l', 'e', 't', 'e']
}

/// The operation of a command.
#[derive(Clone, Copy, Debug, PartialEq, Eq, Structural)]
pub enum FuncType {
    OnCreate,
    OnRead,
    OnUpdate,
    OnDelete,
}

/// The operation that the keyword `s` names, ignoring ASCII case.
pub open spec fn func_type_of(s: Seq<char>) -> Option<FuncType> {
    if eq_ignore_case(s, kw_oncreate()) {
        Some(FuncType::OnCreate)
    } else if eq_ignore_case(s, kw_onread()) {
        Some(FuncType::OnRead)
    } else if eq_ignore_case(s, kw_onupdate()) {
        Some(FuncType::OnUpdate)
    } else if eq_ignore_case(s, kw_ondelete()) {
        Some(FuncType::OnDelete)
    } else {
        None
    }
}

fn func_type_of_str(s: &str) -> (r: Option<FuncType>)
    ensures
        r == func_type_of(s@),
{
    proof {
        reveal_strlit("oncreate");
        reveal_strlit("onread");
        reveal_strlit("onupdate");
        reveal_strlit("ondelete");
    }
    if str_eq_ignore_case(s, "oncreate") {
        Some(FuncType::OnCreate)
    } else if str_eq_ignore_case(s, "onread") {
        Some(FuncType::OnRead)
    } else if str_eq_ignore_case(s, "onupdate") {
        Some(FuncType::OnUpdate)
    } else if str_eq_ignore_case(s, "ondelete") {
        Some(FuncType::OnDelete)
    } else {
        None
    }
}

impl FuncType {
    /// The operation named by `func_type`, ignoring ASCII case.
    pub fn from_string(func_type: String) -> (r: Option<FuncType>)
        ensures
            r == func_type_of(func_type@),
    {
        func_type_of_str(func_type.as_str())
    }

    /// The operation named by `s`, ignoring ASCII case.
    pub fn from_str_name(s: &str) -> (r: Option<FuncType>)
        ensures
            r == func_type_of(s@),
    {
        func_type_of_str(s)
    }
}

/// A variable declaration: a name bound to a typed value.
#[derive(Clone, Debug, PartialEq)]
pub struct DataVar(pub String, pub DataType);

impl DataVar {
    pub fn new(var_name: String, data_type: DataType) -> (r: DataVar)
        ensures
            r.0 == var_name,
            r.1 == data_type,
    {
        DataVar(var_name, data_type)
    }
}

/// One parsed command: its operation, the channels it names, and the
/// comparisons and declarations that its operation takes.
#[derive(Clone, Debug, PartialEq)]
pub struct UnaryFuncExpr {
    pub func_type: FuncType,
    pub channel_names: Vec<DataType>,
    pub binary_exprs: Option<Vec<BinaryExpr>>,
    pub vars: Option<Vec<DataVar>>,
}

impl UnaryFuncExpr {
    pub fn new(
        func_type: FuncType,
        channel_names: Vec<DataType>,
        binary_exprs: Option<Vec<BinaryExpr>>,
        vars: Option<Vec<DataVar>>,
    ) -> (r: UnaryFuncExpr)
        ensures
            r.func_type == func_type,
            r.channel_names == channel_names,
            r.binary_exprs == binary_exprs,
            r.vars == vars,
    {
        UnaryFuncExpr { func_type, channel_names, binary_exprs, vars }
    }

    /// Every comparison it holds can be evaluated.
    pub open spec fn well_formed(&self) -> bool {
        self.binary_exprs matches Some(v) ==> forall|i: int|
            0 <= i < v@.len() ==> (#[trigger] v@[i]).well_formed()
    }

    pub fn get_func_type(&self) -> (r: FuncType)
        ensures
            r == self.func_type,
    {
        self.func_type
    }

    pub fn get_channel_names(&self) -> (r: &Vec<DataType>)
        ensures
            r == &self.channel_names,
    {
        &self.channel_names
    }

    pub fn get_binary_exprs(&self) -> (r: &Option<Vec<BinaryExpr>>)
        ensures
            r == &self.binary_exprs,
    {
        &self.binary_exprs
    }

    pub fn get_vars(&self) -> (r: &Option<Vec<DataVar>>)
        ensures
            r == &self.vars,
    {
        &self.vars
    }
}

/// A token of a command line, classified: an operation keyword, another
/// token, or the marker that opens each command.
#[derive(Clone, Debug, PartialEq)]
pub enum ArgumentGroup {
    FuncGroup(String),
    ChannelsGroup(String),
    ExpressionsGroup(String),
    StatementsGroup(String),
    Other(String),
    Separator,
}

/// The meaning of a classified token.
pub enum GroupView {
    Func(Seq<char>),
    Channels(Seq<char>),
    Expressions(Seq<char>),
    Statements(Seq<char>),
    Other(Seq<char>),
    Marker,
}

impl View for ArgumentGroup {
    type V = GroupView;

    open spec fn view(&self) -> GroupView {
        match self {
            ArgumentGroup::FuncGroup(s) => GroupView::Func(s@),
            ArgumentGroup::ChannelsGroup(s) => GroupView::Channels(s@),
            ArgumentGroup::ExpressionsGroup(s) => GroupView::Expressions(s@),
            ArgumentGroup::StatementsGroup(s) => GroupView::Statements(s@),
            ArgumentGroup::Other(s) => GroupView::Other(s@),
            ArgumentGroup::Separator => GroupView::Marker,
        }
    }
}

/// The classification of one token: a keyword or another token.
pub open spec fn classify(t: Seq<char>) -> GroupView {
    if func_type_of(t) is Some {
        GroupView::Func(t)
    } else {
        GroupView::Other(t)
    }
}

/// The text a classified token carries; empty for the marker.
pub open spec fn group_text(g: GroupView) -> Seq<char> {
    match g {
        GroupView::Func(s) => s,
        GroupView::Channels(s) => s,
        GroupView::Expressions(s) => s,
        GroupView::Statements(s) => s,
        GroupView::Other(s) => s,
        GroupView::Marker => Seq::empty(),
    }
}

impl ArgumentGroup {
    /// Classifies a token as an operation keyword or another token.
    pub fn from_string(val: &String) -> (r: ArgumentGroup)
        ensures
            r@ == classify(val@),
    {
        if func_type_of_str(val.as_str()).is_some() {
            ArgumentGroup::FuncGroup(val.clone())
        } else {
            ArgumentGroup::Other(val.clone())
        }
    }

    /// The text this token carries; empty for the marker.
    pub fn to_string(&self) -> (r: String)
        ensures
            r@ == group_text(self@),
    {
        match self {
            ArgumentGroup::FuncGroup(s) => s.clone(),
            ArgumentGroup::ChannelsGroup(s) => s.clone(),
            ArgumentGroup::ExpressionsGroup(s) => s.clone(),
            ArgumentGroup::StatementsGroup(s) => s.clone(),
            ArgumentGroup::Other(s) => s.clone(),
            ArgumentGroup::Separator => String::new(),
        }
    }
}

} // verus!

//! Quality-weighted codings: the weight in thousandths, the decoding of a
//! single raw item `<codings> [;q=<weight>]`, and its wire formatting.

use vstd::prelude::*;
use vstd::string::*;
use crate::chars::{
    all_digits,
    is_ows,
    lemma_find_first_is,
    lemma_trim_end_at,
    lemma_trim_start_at,
    no_char,
    digit_val,
    digits_val,
    find_char,
    find_first,
    is_digit,
    lemma_digits_val_nonneg,
    lemma_digits_val_prefix,
    lemma_digits_val_upper,
    lemma_ten_pow_pos,
    ten_pow,
    trim,
    trim_str,
};
use crate::encoding::{coding_name, parse_coding, Encoding, EncodingView};

verus! {

/// Why a single raw item failed to parse.
#[derive(Clone, Copy, Debug, PartialEq, Eq, Structural)]
pub enum ParseError {
    /// The coding token before any `;` is empty after trimming.
    EmptyToken,
    /// The text after the `;` is not `q=` followed by a decimal number.
    MalformedWeight,
    /// The weight is outside [0, 1] or carries more than three fractional
    /// digits.
    OutOfRangeWeight,
}

/// A quality weight in the closed range [0.000, 1.000], held as a count of
/// thousandths so that comparisons stay exact.
#[derive(Clone, Copy, Debug, PartialEq, Eq, Structural)]
pub struct Quality {
    permille: u16,
}

impl View for Quality {
    type V = int;

    closed spec fn view(&self) -> int {
        self.permille as int
    }
}

impl Quality {
    #[verifier::type_invariant]
    spec fn inv(self) -> bool {
        self.permille <= 1000
    }

    /// A weight counted in thousandths: 1000 stands for `1.000`.
    pub fn new(permille: u16) -> (r: Quality)
        requires
            permille <= 1000,
        ensures
            r@ == permille as int,
    {
        Quality { permille }
    }

    /// The weight as a count of thousandths.
    pub fn permille(&self) -> (r: u16)
        ensures
            r as int == self@,
    {
        self.permille
    }
}

/// Mathematical form of a weighted coding: the coding together with its
/// weight in thousandths.
pub struct QualityValueView {
    pub coding: EncodingView,
    pub weight: int,
}

/// A content-coding paired with the quality weight a client assigned to it.
#[derive(Debug)]
pub struct QualityValue {
    pub value: Encoding,
    pub quality: Quality,
}

impl View for QualityValue {
    type V = QualityValueView;

    open spec fn view(&self) -> QualityValueView {
        QualityValueView { coding: self.value@, weight: self.quality@ }
    }
}

impl Clone for QualityValue {
    /// The clone denotes the same weighted coding.
    fn clone(&self) -> (r: QualityValue)
        ensures
            r@ == self@,
    {
        QualityValue { value: self.value.clone(), quality: self.quality }
    }
}

impl PartialEq for QualityValue {
    fn eq(&self, other: &QualityValue) -> (r: bool) {
        self.value == other.value && self.quality == other.quality
    }
}

impl vstd::std_specs::cmp::PartialEqSpecImpl for QualityValue {
    open spec fn obeys_eq_spec() -> bool {
        true
    }

    open spec fn eq_spec(&self, other: &QualityValue) -> bool {
        self@ == other@
    }
}

impl From<Encoding> for QualityValue {
    /// A bare coding carries the default weight `1.000`.
    fn from(value: Encoding) -> (r: QualityValue) {
        QualityValue { value, quality: Quality { permille: 1000 } }
    }
}

/// The weighted coding that `From<Encoding>` yields: the coding itself
/// under the default weight `1.000`.
pub closed spec fn default_weighted(value: Encoding) -> QualityValue {
    QualityValue { value, quality: Quality { permille: 1000 } }
}

/// What `QualityValue::from` yields, stated over views: the coding under
/// weight `1.000` (the spec function behind `From` is kept closed, so this
/// is its public face).
pub proof fn lemma_default_weighted(value: Encoding)
    ensures
        default_weighted(value)@ == (QualityValueView { coding: value@, weight: 1000 }),
{
}

impl vstd::std_specs::convert::FromSpecImpl<Encoding> for QualityValue {
    open spec fn obeys_from_spec() -> bool {
        true
    }

    open spec fn from_spec(value: Encoding) -> QualityValue {
        default_weighted(value)
    }
}

/// The weight named by `q=` followed by the digit text `d`, per the
/// `qvalue` grammar: `<digits> [ . <digits> ]`, at most three fractional
/// digits, value at most 1.
pub open spec fn parse_qvalue(d: Seq<char>) -> Result<int, ParseError> {
    let i = find_first(d, '.');
    let ip = if i >= d.len() {
        d
    } else {
        d.subrange(0, i)
    };
    let fp = if i >= d.len() {
        Seq::<char>::empty()
    } else {
        d.subrange(i + 1, d.len() as int)
    };
    if ip.len() == 0 || !all_digits(ip) || !all_digits(fp) {
        Err(ParseError::MalformedWeight)
    } else if fp.len() > 3 {
        Err(ParseError::OutOfRangeWeight)
    } else {
        let v = digits_val(ip) * 1000 + digits_val(fp) * ten_pow((3 - fp.len()) as nat);
        if v > 1000 {
            Err(ParseError::OutOfRangeWeight)
        } else {
            Ok(v)
        }
    }
}

/// The weight named by a whole (already trimmed) weight parameter, which
/// must read `q=` followed by a `qvalue`.
pub open spec fn parse_weight(p: Seq<char>) -> Result<int, ParseError> {
    if p.len() < 2 || p[0] != 'q' || p[1] != '=' {
        Err(ParseError::MalformedWeight)
    } else {
        parse_qvalue(p.subrange(2, p.len() as int))
    }
}

/// Decoding of one raw list item: the text before the first `;` is the
/// coding token (trimmed; it must not be empty), the text after it, when
/// present, is the weight parameter; an absent parameter means `1.000`.
pub open spec fn parse_item(raw: Seq<char>) -> Result<QualityValueView, ParseError> {
    let i = find_first(raw, ';');
    if i >= raw.len() {
        let token = trim(raw);
        if token.len() == 0 {
            Err(ParseError::EmptyToken)
        } else {
            Ok(QualityValueView { coding: parse_coding(token), weight: 1000 })
        }
    } else {
        let token = trim(raw.subrange(0, i));
        if token.len() == 0 {
            Err(ParseError::EmptyToken)
        } else {
            match parse_weight(trim(raw.subrange(i + 1, raw.len() as int))) {
                Ok(w) => Ok(QualityValueView { coding: parse_coding(token), weight: w }),
                Err(e) => Err(e),
            }
        }
    }
}

/// The digit character for a value between 0 and 9.
pub open spec fn digit_char(d: int) -> char {
    if d == 0 {
        '0'
    } else if d == 1 {
        '1'
    } else if d == 2 {
        '2'
    } else if d == 3 {
        '3'
    } else if d == 4 {
        '4'
    } else if d == 5 {
        '5'
    } else if d == 6 {
        '6'
    } else if d == 7 {
        '7'
    } else if d == 8 {
        '8'
    } else {
        '9'
    }
}

/// Wire spelling of a weight in thousandths: the units digit, then up to
/// three fractional digits with trailing zeros trimmed.
pub open spec fn format_weight(w: int) -> Seq<char> {
    let head = seq![digit_char(w / 1000)];
    let f = w % 1000;
    if f == 0 {
        head
    } else {
        let d1 = f / 100;
        let d2 = (f / 10) % 10;
        let d3 = f % 10;
        if d3 != 0 {
            head + seq!['.', digit_char(d1), digit_char(d2), digit_char(d3)]
        } else if d2 != 0 {
            head + seq!['.', digit_char(d1), digit_char(d2)]
        } else {
            head + seq!['.', digit_char(d1)]
        }
    }
}

/// Wire spelling of a weighted coding: the bare token when the weight is
/// the default `1.000`, otherwise the token followed by `; q=` and the
/// weight.
pub open spec fn format_item(q: QualityValueView) -> Seq<char> {
    if q.weight == 1000 {
        coding_name(q.coding)
    } else {
        coding_name(q.coding) + "; q="@ + format_weight(q.weight)
    }
}

/// The view of a fallible parse result: the parsed item's view on success,
/// the same error on failure.
pub open spec fn item_result_view(r: Result<QualityValue, ParseError>) -> Result<
    QualityValueView,
    ParseError,
> {
    match r {
        Ok(q) => Ok(q@),
        Err(e) => Err(e),
    }
}

fn digit_str(d: u16) -> (r: &'static str)
    requires
        d <= 9,
    ensures
        r@ == seq![digit_char(d as int)],
{
    let r: &'static str = if d == 0 {
        "0"
    } else if d == 1 {
        "1"
    } else if d == 2 {
        "2"
    } else if d == 3 {
        "3"
    } else if d == 4 {
        "4"
    } else if d == 5 {
        "5"
    } else if d == 6 {
        "6"
    } else if d == 7 {
        "7"
    } else if d == 8 {
        "8"
    } else {
        "9"
    };
    proof {
        reveal_strlit("0");
        reveal_strlit("1");
        reveal_strlit("2");
        reveal_strlit("3");
        reveal_strlit("4");
        reveal_strlit("5");
        reveal_strlit("6");
        reveal_strlit("7");
        reveal_strlit("8");
        reveal_strlit("9");
        assert(r@ =~= seq![digit_char(d as int)]);
    }
    r
}

/// Decoding of the digit text after `q=`; `Ok` carries thousandths.
#[verifier::loop_isolation(false)]
fn parse_qvalue_digits(d: &str) -> (r: Result<u16, ParseError>)
    ensures
        match r {
            Ok(w) => parse_qvalue(d@) == Ok::<int, ParseError>(w as int) && w <= 1000,
            Err(e) => parse_qvalue(d@) == Err::<int, ParseError>(e),
        },
{
    let dn = d.unicode_len();
    let dot = find_char(d, '.');
    let ghost ip = if (dot as int) >= d@.len() {
        d@
    } else {
        d@.subrange(0, dot as int)
    };
    let ghost fp = if (dot as int) >= d@.len() {
        Seq::<char>::empty()
    } else {
        d@.subrange(dot as int + 1, d@.len() as int)
    };
    if dot == 0 {
        proof {
            assert(ip.len() == 0);
        }
        return Err(ParseError::MalformedWeight);
    }
    proof {
        assert(ip.len() > 0);
    }
    let mut i: usize = 0;
    while i < dn
        invariant
            0 <= i <= dn,
            forall|j: int| 0 <= j < i && j != dot ==> is_digit(d@[j]),
        decreases dn - i,
    {
        if i != dot {
            let c = d.get_char(i);
            let u = c as u32;
            if u < 48 || u > 57 {
                proof {
                    if i < dot {
                        assert(ip[i as int] == d@[i as int]);
                        assert(!all_digits(ip));
                    } else {
                        assert(fp[i - dot - 1] == d@[i as int]);
                        assert(!all_digits(fp));
                    }
                }
                return Err(ParseError::MalformedWeight);
            }
        }
        i = i + 1;
    }
    proof {
        assert(all_digits(ip)) by {
            assert(forall|j: int| 0 <= j < ip.len() ==> ip[j] == d@[j] && j != dot);
        }
        assert(all_digits(fp)) by {
            assert(forall|j: int|
                0 <= j < fp.len() ==> fp[j] == d@[j + dot + 1] && j + dot + 1 != dot);
        }
        assert(ten_pow(0) == 1);
        assert(ten_pow(1) == 10);
        assert(ten_pow(2) == 100);
        assert(ten_pow(3) == 1000);
    }
    let fplen: usize = if dot >= dn {
        0
    } else {
        dn - dot - 1
    };
    proof {
        assert(fplen == fp.len());
    }
    if fplen > 3 {
        return Err(ParseError::OutOfRangeWeight);
    }
    let ipn: usize = if dot >= dn {
        dn
    } else {
        dot
    };
    proof {
        assert(ipn == ip.len());
    }
    let mut acc: u32 = 0;
    let mut i2: usize = 0;
    while i2 < ipn
        invariant
            0 <= i2 <= ipn,
            acc == digits_val(ip.subrange(0, i2 as int)),
            acc <= 1000,
        decreases ipn - i2,
    {
        let c = d.get_char(i2);
        proof {
            assert(ip[i2 as int] == d@[i2 as int]);
            assert(is_digit(d@[i2 as int]));
        }
        let dv = c as u32 - 48;
        proof {
            assert(dv == digit_val(ip[i2 as int]));
            assert(ip.subrange(0, i2 + 1).drop_last() =~= ip.subrange(0, i2 as int));
        }
        let next = acc * 10 + dv;
        if next > 1000 {
            proof {
                assert(digits_val(ip.subrange(0, i2 + 1)) == next);
                lemma_digits_val_prefix(ip, i2 + 1);
                lemma_digits_val_nonneg(fp);
                lemma_ten_pow_pos((3 - fp.len()) as nat);
                assert(digits_val(fp) * ten_pow((3 - fp.len()) as nat) >= 0) by (nonlinear_arith)
                    requires
                        digits_val(fp) >= 0,
                        ten_pow((3 - fp.len()) as nat) >= 1,
                ;
                assert(digits_val(ip) * 1000 + digits_val(fp) * ten_pow((3 - fp.len()) as nat)
                    > 1000);
            }
            return Err(ParseError::OutOfRangeWeight);
        }
        acc = next;
        i2 = i2 + 1;
    }
    proof {
        assert(ip.subrange(0, ipn as int) =~= ip);
        assert(acc == digits_val(ip));
    }
    let mut fv: u32 = 0;
    let mut k: usize = 0;
    while k < fplen
        invariant
            0 <= k <= fplen,
            fv == digits_val(fp.subrange(0, k as int)),
            fv <= 999,
        decreases fplen - k,
    {
        let c = d.get_char(dot + 1 + k);
        proof {
            assert(fp[k as int] == d@[dot + 1 + k]);
            assert(is_digit(fp[k as int]));
        }
        let dv = c as u32 - 48;
        proof {
            assert(dv == digit_val(fp[k as int]));
            assert(fp.subrange(0, k + 1).drop_last() =~= fp.subrange(0, k as int));
            assert(all_digits(fp.subrange(0, k + 1))) by {
                assert(forall|j: int| 0 <= j < k + 1 ==> fp.subrange(0, k + 1)[j] == fp[j]);
            }
            lemma_digits_val_upper(fp.subrange(0, k + 1));
            assert(ten_pow(fp.subrange(0, k + 1).len()) <= 1000);
        }
        fv = fv * 10 + dv;
        k = k + 1;
    }
    proof {
        assert(fp.subrange(0, fplen as int) =~= fp);
        assert(fv == digits_val(fp));
    }
    let scale: u32 = if fplen == 1 {
        100
    } else if fplen == 2 {
        10
    } else if fplen == 3 {
        1
    } else {
        1000
    };
    proof {
        assert(scale == ten_pow((3 - fp.len()) as nat));
    }
    let v = acc * 1000 + fv * scale;
    if v > 1000 {
        Err(ParseError::OutOfRangeWeight)
    } else {
        Ok(v as u16)
    }
}


/// Decoding of the whole (already trimmed) weight parameter.
fn parse_weight_text(p: &str) -> (r: Result<u16, ParseError>)
    ensures
        match r {
            Ok(w) => parse_weight(p@) == Ok::<int, ParseError>(w as int) && w <= 1000,
            Err(e) => parse_weight(p@) == Err::<int, ParseError>(e),
        },
{
    let n = p.unicode_len();
    if n < 2 {
        return Err(ParseError::MalformedWeight);
    }
    if p.get_char(0) != 'q' || p.get_char(1) != '=' {
        return Err(ParseError::MalformedWeight);
    }
    let d = p.substring_char(2, n);
    parse_qvalue_digits(d)
}

impl QualityValue {
    /// Pairs a coding with a weight.
    pub fn new(value: Encoding, quality: Quality) -> (r: QualityValue)
        ensures
            r@.coding == value@,
            r@.weight == quality@,
    {
        QualityValue { value, quality }
    }

    /// The same coding with the given weight.
    pub fn with_q(self, quality: Quality) -> (r: QualityValue)
        ensures
            r@.coding == self@.coding,
            r@.weight == quality@,
    {
        QualityValue { value: self.value, quality }
    }

    /// Decodes one raw list item of the form `<codings> [;q=<weight>]`.
    /// Fails exactly when the coding token is empty, the weight parameter
    /// is not `q=` followed by a decimal number, or the weight is outside
    /// [0, 1] or finer than thousandths.
    pub fn parse(raw: &str) -> (r: Result<QualityValue, ParseError>)
        ensures
            item_result_view(r) == parse_item(raw@),
    {
        let n = raw.unicode_len();
        let semi = find_char(raw, ';');
        if semi == n {
            let token = trim_str(raw);
            if token.unicode_len() == 0 {
                return Err(ParseError::EmptyToken);
            }
            let value = Encoding::parse(token);
            Ok(QualityValue { value, quality: Quality { permille: 1000 } })
        } else {
            let left = raw.substring_char(0, semi);
            let token = trim_str(left);
            if token.unicode_len() == 0 {
                return Err(ParseError::EmptyToken);
            }
            let value = Encoding::parse(token);
            let rest = raw.substring_char(semi + 1, n);
            let param = trim_str(rest);
            match parse_weight_text(param) {
                Ok(w) => Ok(QualityValue { value, quality: Quality { permille: w } }),
                Err(e) => Err(e),
            }
        }
    }

    /// The wire spelling: the bare token when the weight is `1.000`,
    /// otherwise the token followed by `; q=` and the weight with trailing
    /// zeros trimmed.
    pub fn format(&self) -> (r: String)
        ensures
            r@ == format_item(self@),
    {
        proof {
            use_type_invariant(&self.quality);
        }
        let mut out = self.value.name();
        let p = self.quality.permille;
        if p == 1000 {
            return out;
        }
        out.append("; q=");
        let units = digit_str(p / 1000);
        out.append(units);
        let f = p % 1000;
        if f != 0 {
            out.append(".");
            let d1 = f / 100;
            let d2 = (f / 10) % 10;
            let d3 = f % 10;
            proof {
                reveal_strlit(".");
            }
            if d3 != 0 {
                out.append(digit_str(d1));
                out.append(digit_str(d2));
                out.append(digit_str(d3));
            } else if d2 != 0 {
                out.append(digit_str(d1));
                out.append(digit_str(d2));
            } else {
                out.append(digit_str(d1));
            }
        }
        proof {
            assert(out@ =~= format_item(self@));
        }
        out
    }

    /// The order the priority sort goes by: the plain numeric order of the
    /// two weights; equal weights compare `Equal`, so that the tie-break
    /// comes from the surrounding stable sort, not from this comparator.
    pub fn compare(&self, other: &QualityValue) -> (r: core::cmp::Ordering)
        ensures
            (r == core::cmp::Ordering::Less) <==> self@.weight < other@.weight,
            (r == core::cmp::Ordering::Equal) <==> self@.weight == other@.weight,
            (r == core::cmp::Ordering::Greater) <==> self@.weight > other@.weight,
    {
        let a = self.quality.permille;
        let b = other.quality.permille;
        if a < b {
            core::cmp::Ordering::Less
        } else if a == b {
            core::cmp::Ordering::Equal
        } else {
            core::cmp::Ordering::Greater
        }
    }
}

/// A well-formed entry: one whose weight lies in [0, 1000] and whose
/// coding spells as a nonempty token, free of separators and of edge
/// whitespace, that parses back to the same coding. Every entry that
/// `parse_item` yields is of this shape, and exactly these entries
/// round-trip through `format_item`.
pub open spec fn item_wf(q: QualityValueView) -> bool {
    &&& 0 <= q.weight <= 1000
    &&& coding_name(q.coding).len() > 0
    &&& !is_ows(coding_name(q.coding)[0])
    &&& !is_ows(coding_name(q.coding).last())
    &&& no_char(coding_name(q.coding), ',')
    &&& no_char(coding_name(q.coding), ';')
    &&& parse_coding(coding_name(q.coding)) == q.coding
}

/// `digit_char` and `digit_val` are mutually inverse on single digits,
/// and a digit character is neither a separator nor whitespace.
pub proof fn lemma_digit_char_val(d: int)
    requires
        0 <= d <= 9,
    ensures
        is_digit(digit_char(d)),
        digit_val(digit_char(d)) == d,
        digit_char(d) != '.' && digit_char(d) != ',' && digit_char(d) != ';' && !is_ows(
            digit_char(d),
        ),
{
}

/// The spelling of a weight is nonempty and made of digits and at most
/// one dot: no separator and no whitespace occurs in it.
pub proof fn lemma_format_weight_chars(w: int)
    ensures
        format_weight(w).len() > 0,
        forall|j: int|
            0 <= j < format_weight(w).len() ==> (is_digit(format_weight(w)[j]) || format_weight(
                w,
            )[j] == '.'),
        is_digit(format_weight(w).last()),
{
    assert(forall|d: int| is_digit(#[trigger] digit_char(d)));
}

/// A weight that `parse_weight` accepts lies in [0, 1000].
pub proof fn lemma_parse_weight_ok_range(p: Seq<char>)
    ensures
        match parse_weight(p) {
            Ok(w) => 0 <= w <= 1000,
            Err(_) => true,
        },
{
    if !(p.len() < 2 || p[0] != 'q' || p[1] != '=') {
        let d = p.subrange(2, p.len() as int);
        let i = find_first(d, '.');
        let ip = if i >= d.len() {
            d
        } else {
            d.subrange(0, i)
        };
        let fp = if i >= d.len() {
            Seq::<char>::empty()
        } else {
            d.subrange(i + 1, d.len() as int)
        };
        if !(ip.len() == 0 || !all_digits(ip) || !all_digits(fp)) && fp.len() <= 3 {
            lemma_digits_val_nonneg(ip);
            lemma_digits_val_nonneg(fp);
            lemma_ten_pow_pos((3 - fp.len()) as nat);
            assert(digits_val(fp) * ten_pow((3 - fp.len()) as nat) >= 0) by (nonlinear_arith)
                requires
                    digits_val(fp) >= 0,
                    ten_pow((3 - fp.len()) as nat) >= 1,
            ;
        }
    }
}

/// Round trip of a non-default weight: parsing its spelling as a `qvalue`
/// yields the weight back exactly.
pub proof fn lemma_weight_round_trip(w: int)
    requires
        0 <= w < 1000,
    ensures
        parse_qvalue(format_weight(w)) == Ok::<int, ParseError>(w),
{
    let fw = format_weight(w);
    let f = w % 1000;
    assert(f == w);
    assert(w / 1000 == 0);
    lemma_digit_char_val(0);
    if f == 0 {
        assert(fw =~= seq![digit_char(0)]);
        lemma_find_first_is(fw, '.', 1);
        assert(fw.drop_last() =~= Seq::<char>::empty());
        assert(digits_val(Seq::<char>::empty()) == 0);
        assert(digits_val(fw) == digits_val(fw.drop_last()) * 10 + digit_val(fw.last()));
        assert(digits_val(fw) == 0);
        assert(all_digits(fw));
    } else {
        let d1 = f / 100;
        let d2 = (f / 10) % 10;
        let d3 = f % 10;
        lemma_digit_char_val(d1);
        lemma_digit_char_val(d2);
        lemma_digit_char_val(d3);
        let ip = fw.subrange(0, 1);
        let fp = fw.subrange(2, fw.len() as int);
        assert(fw[0] == digit_char(0) && fw[1] == '.');
        lemma_find_first_is(fw, '.', 1);
        assert(ip =~= seq![digit_char(0)]);
        assert(ip.drop_last() =~= Seq::<char>::empty());
        assert(digits_val(Seq::<char>::empty()) == 0);
        assert(digits_val(ip) == digits_val(ip.drop_last()) * 10 + digit_val(ip.last()));
        assert(digits_val(ip) == 0);
        assert(all_digits(ip));
        assert(ten_pow(0) == 1);
        assert(ten_pow(1) == 10);
        assert(ten_pow(2) == 100);
        assert(ten_pow(3) == 1000);
        if d3 != 0 {
            assert(fp =~= seq![digit_char(d1), digit_char(d2), digit_char(d3)]);
            let fp1 = fp.drop_last();
            let fp2 = fp1.drop_last();
            assert(fp1 =~= seq![digit_char(d1), digit_char(d2)]);
            assert(fp2 =~= seq![digit_char(d1)]);
            assert(fp2.drop_last() =~= Seq::<char>::empty());
            assert(digits_val(Seq::<char>::empty()) == 0);
            assert(digits_val(fp2) == digits_val(fp2.drop_last()) * 10 + digit_val(fp2.last()));
            assert(digits_val(fp1) == digits_val(fp2) * 10 + digit_val(fp1.last()));
            assert(digits_val(fp) == digits_val(fp1) * 10 + digit_val(fp.last()));
            assert(digits_val(fp) == (d1 * 10 + d2) * 10 + d3);
            assert(all_digits(fp));
            assert(digits_val(fp) * ten_pow(0) == f);
        } else if d2 != 0 {
            assert(fp =~= seq![digit_char(d1), digit_char(d2)]);
            let fp1 = fp.drop_last();
            assert(fp1 =~= seq![digit_char(d1)]);
            assert(fp1.drop_last() =~= Seq::<char>::empty());
            assert(digits_val(Seq::<char>::empty()) == 0);
            assert(digits_val(fp1) == digits_val(fp1.drop_last()) * 10 + digit_val(fp1.last()));
            assert(digits_val(fp) == digits_val(fp1) * 10 + digit_val(fp.last()));
            assert(digits_val(fp) == d1 * 10 + d2);
            assert(all_digits(fp));
            assert(digits_val(fp) * ten_pow(1) == f);
        } else {
            assert(fp =~= seq![digit_char(d1)]);
            assert(fp.drop_last() =~= Seq::<char>::empty());
            assert(digits_val(Seq::<char>::empty()) == 0);
            assert(digits_val(fp) == digits_val(fp.drop_last()) * 10 + digit_val(fp.last()));
            assert(digits_val(fp) == d1);
            assert(all_digits(fp));
            assert(digits_val(fp) * ten_pow(2) == f);
        }
    }
}

/// Round trip of a well-formed entry: parsing its wire spelling, possibly
/// after extra leading whitespace, yields the entry back exactly.
pub proof fn lemma_parse_format_item(lead: Seq<char>, q: QualityValueView)
    requires
        forall|j: int| 0 <= j < lead.len() ==> is_ows(lead[j]),
        item_wf(q),
    ensures
        parse_item(lead + format_item(q)) == Ok::<QualityValueView, ParseError>(q),
{
    let name = coding_name(q.coding);
    let f = format_item(q);
    let raw = lead + f;
    let pl = lead.len() as int;
    let nl = name.len() as int;
    if q.weight == 1000 {
        assert(raw =~= lead + name);
        assert(forall|j: int| 0 <= j < raw.len() ==> raw[j] != ';');
        lemma_find_first_is(raw, ';', raw.len() as int);
        lemma_trim_start_at(raw, pl);
        let t = raw.subrange(pl, raw.len() as int);
        assert(t =~= name);
        lemma_trim_end_at(name, nl);
        assert(name.subrange(0, nl) =~= name);
        assert(trim(raw) == name);
    } else {
        reveal_strlit("; q=");
        assert("; q="@ =~= seq![';', ' ', 'q', '=']);
        let fw = format_weight(q.weight);
        lemma_format_weight_chars(q.weight);
        assert(raw =~= lead + name + seq![';', ' ', 'q', '='] + fw);
        assert(forall|j: int| 0 <= j < pl + nl ==> raw[j] != ';');
        assert(raw[pl + nl] == ';');
        lemma_find_first_is(raw, ';', pl + nl);
        let left = raw.subrange(0, pl + nl);
        assert(left =~= lead + name);
        lemma_trim_start_at(left, pl);
        assert(left.subrange(pl, left.len() as int) =~= name);
        lemma_trim_end_at(name, nl);
        assert(name.subrange(0, nl) =~= name);
        assert(trim(left) == name);
        let rest = raw.subrange(pl + nl + 1, raw.len() as int);
        assert(rest =~= seq![' ', 'q', '='] + fw);
        assert(is_ows(rest[0]) && !is_ows(rest[1]));
        lemma_trim_start_at(rest, 1);
        let p = rest.subrange(1, rest.len() as int);
        assert(p =~= seq!['q', '='] + fw);
        assert(!is_digit(' ') && !is_digit('\t'));
        assert(!is_ows(p.last()));
        lemma_trim_end_at(p, p.len() as int);
        assert(p.subrange(0, p.len() as int) =~= p);
        assert(trim(rest) == p);
        assert(p[0] == 'q' && p[1] == '=');
        assert(p.subrange(2, p.len() as int) =~= fw);
        lemma_weight_round_trip(q.weight);
        assert(parse_weight(p) == Ok::<int, ParseError>(q.weight));
    }
}

/// The wire spelling of a well-formed entry contains no comma, starts and
/// ends free of whitespace, and is nonempty.
pub proof fn lemma_format_item_shape(q: QualityValueView)
    requires
        item_wf(q),
    ensures
        format_item(q).len() > 0,
        no_char(format_item(q), ','),
        !is_ows(format_item(q)[0]),
        !is_ows(format_item(q).last()),
{
    let name = coding_name(q.coding);
    let f = format_item(q);
    if q.weight == 1000 {
    } else {
        reveal_strlit("; q=");
        assert("; q="@ =~= seq![';', ' ', 'q', '=']);
        let fw = format_weight(q.weight);
        lemma_format_weight_chars(q.weight);
        assert(f =~= name + seq![';', ' ', 'q', '='] + fw);
        assert(f[0] == name[0]);
        assert(f.last() == fw.last());
        assert(forall|j: int| 0 <= j < f.len() ==> f[j] != ',');
    }
}

} // verus!

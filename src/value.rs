use vstd::prelude::*;
use vstd::string::StringSliceAdditionalSpecFns;

verus! {

/// The declared type of a statement parameter.
#[derive(Clone, Copy, Debug, PartialEq, Eq, Structural)]
pub enum ParamType {
    Int8,
    Bool,
    Text,
}

/// A parameter value as it arrives from the client: null, or raw bytes in
/// text or binary format.
#[derive(Clone, Debug, PartialEq, Eq)]
pub enum BindValue {
    Null,
    Text(Vec<u8>),
    Binary(Vec<u8>),
}

pub enum ValueModel {
    Null,
    Text(Seq<u8>),
    Binary(Seq<u8>),
}

impl View for BindValue {
    type V = ValueModel;

    open spec fn view(&self) -> ValueModel {
        match self {
            BindValue::Null => ValueModel::Null,
            BindValue::Text(b) => ValueModel::Text(b@),
            BindValue::Binary(b) => ValueModel::Binary(b@),
        }
    }
}

impl BindValue {
    /// A value in text format holding the UTF-8 bytes of `s`.
    pub fn text(s: &str) -> (r: BindValue)
        ensures
            r@ == ValueModel::Text(s.spec_bytes()),
    {
        BindValue::Text(copy_bytes(s.as_bytes()))
    }
}

/// A decoded SQL literal.
#[derive(Clone, Debug, PartialEq, Eq)]
pub enum Literal {
    Null,
    Int(i64),
    Bool(bool),
    Str(Vec<u8>),
}

pub enum LiteralModel {
    Null,
    Int(int),
    Bool(bool),
    Str(Seq<u8>),
}

impl View for Literal {
    type V = LiteralModel;

    open spec fn view(&self) -> LiteralModel {
        match self {
            Literal::Null => LiteralModel::Null,
            Literal::Int(n) => LiteralModel::Int(*n as int),
            Literal::Bool(b) => LiteralModel::Bool(*b),
            Literal::Str(s) => LiteralModel::Str(s@),
        }
    }
}

pub open spec fn is_digit(b: u8) -> bool {
    48 <= b <= 57
}

pub open spec fn all_digits(s: Seq<u8>) -> bool {
    forall|i: int| 0 <= i < s.len() ==> is_digit(#[trigger] s[i])
}

pub open spec fn digit_value(b: u8) -> nat {
    if is_digit(b) {
        (b - 48) as nat
    } else {
        0
    }
}

/// The number that a string of decimal digits denotes.
pub open spec fn digits_value(s: Seq<u8>) -> nat
    decreases s.len(),
{
    if s.len() == 0 {
        0
    } else {
        digits_value(s.drop_last()) * 10 + digit_value(s.last())
    }
}

/// An ASCII whitespace byte: space, tab, newline, vertical tab, form feed
/// or carriage return.
pub open spec fn is_space(b: u8) -> bool {
    b == 32 || (9 <= b <= 13)
}

pub open spec fn trim_start(s: Seq<u8>) -> Seq<u8>
    decreases s.len(),
{
    if s.len() > 0 && is_space(s[0]) {
        trim_start(s.skip(1))
    } else {
        s
    }
}

pub open spec fn trim_end(s: Seq<u8>) -> Seq<u8>
    decreases s.len(),
{
    if s.len() > 0 && is_space(s.last()) {
        trim_end(s.drop_last())
    } else {
        s
    }
}

/// `s` without leading and trailing whitespace.
pub open spec fn trimmed(s: Seq<u8>) -> Seq<u8> {
    trim_end(trim_start(s))
}

/// The integer that an optional sign and at least one decimal digit denote,
/// within the range of a 64-bit signed integer.
pub open spec fn signed_int(s: Seq<u8>) -> Option<int> {
    if s.len() > 0 && s[0] == 45 {
        let m = s.skip(1);
        if m.len() > 0 && all_digits(m) && digits_value(m) <= 9223372036854775808 {
            Some(-(digits_value(m) as int))
        } else {
            None
        }
    } else if s.len() > 0 && s[0] == 43 {
        let m = s.skip(1);
        if m.len() > 0 && all_digits(m) && digits_value(m) <= 9223372036854775807 {
            Some(digits_value(m) as int)
        } else {
            None
        }
    } else if s.len() > 0 && all_digits(s) && digits_value(s) <= 9223372036854775807 {
        Some(digits_value(s) as int)
    } else {
        None
    }
}

/// The integer that text-format bytes denote: a signed decimal integer with
/// optional surrounding whitespace.
pub open spec fn text_int(s: Seq<u8>) -> Option<int> {
    signed_int(trimmed(s))
}

pub open spec fn to_lower(b: u8) -> u8 {
    if 65 <= b <= 90 {
        (b + 32) as u8
    } else {
        b
    }
}

pub open spec fn lowered(s: Seq<u8>) -> Seq<u8> {
    s.map_values(|b: u8| to_lower(b))
}

/// `w` is a non-empty prefix of `word`.
pub open spec fn is_prefix_of(w: Seq<u8>, word: Seq<u8>) -> bool {
    0 < w.len() <= word.len() && w == word.subrange(0, w.len() as int)
}

/// The boolean that a lower-case word denotes: a prefix of `true`, `yes`,
/// `false` or `no`; `on`, or `of` or `off`; `1` or `0`.
pub open spec fn bool_word(w: Seq<u8>) -> Option<bool> {
    if is_prefix_of(w, seq![116u8, 114u8, 117u8, 101u8]) || is_prefix_of(
        w,
        seq![121u8, 101u8, 115u8],
    ) || w == seq![111u8, 110u8] || w == seq![49u8] {
        Some(true)
    } else if is_prefix_of(w, seq![102u8, 97u8, 108u8, 115u8, 101u8]) || is_prefix_of(
        w,
        seq![110u8, 111u8],
    ) || (w.len() >= 2 && is_prefix_of(w, seq![111u8, 102u8, 102u8])) || w == seq![48u8] {
        Some(false)
    } else {
        None
    }
}

/// The boolean that text-format bytes denote, ignoring case and surrounding
/// whitespace.
pub open spec fn text_bool(s: Seq<u8>) -> Option<bool> {
    bool_word(lowered(trimmed(s)))
}

/// The boolean that binary-format bytes denote: one byte, 1 or 0.
pub open spec fn binary_bool(s: Seq<u8>) -> Option<bool> {
    if s == seq![1u8] {
        Some(true)
    } else if s == seq![0u8] {
        Some(false)
    } else {
        None
    }
}

/// The integer that binary-format bytes denote: eight bytes, big-endian,
/// two's complement.
pub open spec fn binary_int(s: Seq<u8>) -> Option<int> {
    if s.len() == 8 {
        let u = (s[0] as int) * 0x100000000000000 + (s[1] as int) * 0x1000000000000 + (s[2] as int)
            * 0x10000000000 + (s[3] as int) * 0x100000000 + (s[4] as int) * 0x1000000 + (s[5] as int)
            * 0x10000 + (s[6] as int) * 0x100 + (s[7] as int);
        if u >= 0x8000000000000000 {
            Some(u - 0x10000000000000000)
        } else {
            Some(u)
        }
    } else {
        None
    }
}

pub open spec fn some_int(n: Option<int>) -> Option<LiteralModel> {
    match n {
        Some(v) => Some(LiteralModel::Int(v)),
        None => None,
    }
}

pub open spec fn some_bool(b: Option<bool>) -> Option<LiteralModel> {
    match b {
        Some(v) => Some(LiteralModel::Bool(v)),
        None => None,
    }
}

/// The literal that a value decodes to under a declared type, or `None`
/// where its bytes do not fit that type. A null decodes to NULL under every
/// type.
pub open spec fn decode_spec(t: ParamType, v: ValueModel) -> Option<LiteralModel> {
    match v {
        ValueModel::Null => Some(LiteralModel::Null),
        ValueModel::Text(s) => match t {
            ParamType::Int8 => some_int(text_int(s)),
            ParamType::Bool => some_bool(text_bool(s)),
            ParamType::Text => Some(LiteralModel::Str(s)),
        },
        ValueModel::Binary(s) => match t {
            ParamType::Int8 => some_int(binary_int(s)),
            ParamType::Bool => some_bool(binary_bool(s)),
            ParamType::Text => Some(LiteralModel::Str(s)),
        },
    }
}

proof fn lemma_prefix_le(s: Seq<u8>, k: int)
    requires
        0 <= k <= s.len(),
    ensures
        digits_value(s.subrange(0, k)) <= digits_value(s),
    decreases s.len() - k,
{
    if k < s.len() {
        lemma_prefix_le(s, k + 1);
        assert(s.subrange(0, k + 1).drop_last() =~= s.subrange(0, k));
    } else {
        assert(s.subrange(0, k) =~= s);
    }
}

pub(crate) fn parse_magnitude(s: &[u8], start: usize) -> (r: Option<u64>)
    requires
        start <= s@.len(),
    ensures
        match r {
            Some(m) => all_digits(s@.subrange(start as int, s@.len() as int)) && m == digits_value(
                s@.subrange(start as int, s@.len() as int),
            ),
            None => !all_digits(s@.subrange(start as int, s@.len() as int)) || digits_value(
                s@.subrange(start as int, s@.len() as int),
            ) > u64::MAX,
        },
{
    let ghost all = s@.subrange(start as int, s@.len() as int);
    let mut acc: u64 = 0;
    let mut i: usize = start;
    while i < s.len()
        invariant
            start <= i <= s@.len(),
            all == s@.subrange(start as int, s@.len() as int),
            all_digits(s@.subrange(start as int, i as int)),
            acc == digits_value(s@.subrange(start as int, i as int)),
        decreases s@.len() - i,
    {
        let b = s[i];
        if b < 48 || b > 57 {
            proof {
                assert(all[i - start] == b);
            }
            return None;
        }
        let ghost next = s@.subrange(start as int, i + 1);
        proof {
            assert(next.drop_last() =~= s@.subrange(start as int, i as int));
            assert(next =~= all.subrange(0, i + 1 - start));
            lemma_prefix_le(all, i + 1 - start);
        }
        let d = (b - 48) as u64;
        match acc.checked_mul(10) {
            Some(x) => match x.checked_add(d) {
                Some(y) => {
                    acc = y;
                },
                None => {
                    return None;
                },
            },
            None => {
                return None;
            },
        }
        i = i + 1;
    }
    proof {
        assert(s@.subrange(start as int, i as int) =~= all);
    }
    Some(acc)
}

fn parse_signed(s: &[u8]) -> (r: Option<i64>)
    ensures
        match r {
            Some(n) => signed_int(s@) == Some(n as int),
            None => signed_int(s@) is None,
        },
{
    if s.len() > 0 && s[0] == 45 {
        proof {
            assert(s@.subrange(1, s@.len() as int) =~= s@.skip(1));
        }
        if s.len() == 1 {
            return None;
        }
        match parse_magnitude(s, 1) {
            Some(m) => {
                if m < 9223372036854775808 {
                    Some(-(m as i64))
                } else if m == 9223372036854775808 {
                    Some(i64::MIN)
                } else {
                    None
                }
            },
            None => None,
        }
    } else if s.len() > 0 && s[0] == 43 {
        proof {
            assert(s@.subrange(1, s@.len() as int) =~= s@.skip(1));
        }
        if s.len() == 1 {
            return None;
        }
        match parse_magnitude(s, 1) {
            Some(m) => {
                if m <= 9223372036854775807 {
                    Some(m as i64)
                } else {
                    None
                }
            },
            None => None,
        }
    } else {
        proof {
            assert(s@.subrange(0, s@.len() as int) =~= s@);
        }
        if s.len() == 0 {
            return None;
        }
        match parse_magnitude(s, 0) {
            Some(m) => {
                if m <= 9223372036854775807 {
                    Some(m as i64)
                } else {
                    None
                }
            },
            None => None,
        }
    }
}

fn trim(s: &[u8]) -> (r: Vec<u8>)
    ensures
        r@ == trimmed(s@),
{
    let mut lo: usize = 0;
    proof {
        assert(s@.subrange(0, s@.len() as int) =~= s@);
    }
    while lo < s.len() && (s[lo] == 32 || (9 <= s[lo] && s[lo] <= 13))
        invariant
            lo <= s@.len(),
            trim_start(s@) == trim_start(s@.subrange(lo as int, s@.len() as int)),
        decreases s@.len() - lo,
    {
        proof {
            assert(s@.subrange(lo as int, s@.len() as int).skip(1) =~= s@.subrange(
                lo + 1,
                s@.len() as int,
            ));
        }
        lo = lo + 1;
    }
    let ghost ts = s@.subrange(lo as int, s@.len() as int);
    proof {
        assert(trim_start(ts) == ts);
    }
    let mut hi: usize = s.len();
    while hi > lo && (s[hi - 1] == 32 || (9 <= s[hi - 1] && s[hi - 1] <= 13))
        invariant
            lo <= hi <= s@.len(),
            ts == s@.subrange(lo as int, s@.len() as int),
            trim_end(ts) == trim_end(s@.subrange(lo as int, hi as int)),
        decreases hi - lo,
    {
        proof {
            assert(s@.subrange(lo as int, hi as int).drop_last() =~= s@.subrange(
                lo as int,
                hi - 1,
            ));
        }
        hi = hi - 1;
    }
    let mut out: Vec<u8> = Vec::new();
    let mut i: usize = lo;
    while i < hi
        invariant
            lo <= i <= hi,
            hi <= s@.len(),
            out@ == s@.subrange(lo as int, i as int),
        decreases hi - i,
    {
        out.push(s[i]);
        proof {
            assert(s@.subrange(lo as int, i + 1) =~= s@.subrange(lo as int, i as int).push(s@[i as int]));
        }
        i = i + 1;
    }
    out
}

pub(crate) fn parse_text_int(s: &[u8]) -> (r: Option<i64>)
    ensures
        match r {
            Some(n) => text_int(s@) == Some(n as int),
            None => text_int(s@) is None,
        },
{
    let t = trim(s);
    parse_signed(t.as_slice())
}

fn lower(s: &Vec<u8>) -> (r: Vec<u8>)
    ensures
        r@ == lowered(s@),
{
    let mut out: Vec<u8> = Vec::new();
    let mut i: usize = 0;
    while i < s.len()
        invariant
            i <= s@.len(),
            out@.len() == i,
            forall|j: int| 0 <= j < i ==> out@[j] == to_lower(#[trigger] s@[j]),
        decreases s@.len() - i,
    {
        let b = s[i];
        if 65 <= b && b <= 90 {
            out.push(b + 32);
        } else {
            out.push(b);
        }
        i = i + 1;
    }
    proof {
        assert(out@ =~= lowered(s@));
    }
    out
}

fn is_prefix(w: &Vec<u8>, word: &[u8]) -> (r: bool)
    ensures
        r == is_prefix_of(w@, word@),
{
    if w.len() == 0 || w.len() > word.len() {
        return false;
    }
    let mut i: usize = 0;
    while i < w.len()
        invariant
            0 < w@.len() <= word@.len(),
            i <= w@.len(),
            forall|j: int| 0 <= j < i ==> w@[j] == word@[j],
        decreases w@.len() - i,
    {
        if w[i] != word[i] {
            proof {
                assert(word@.subrange(0, w@.len() as int)[i as int] == word@[i as int]);
            }
            return false;
        }
        i = i + 1;
    }
    proof {
        assert(w@ =~= word@.subrange(0, w@.len() as int));
    }
    true
}

fn bytes_equal(s: &Vec<u8>, t: &[u8]) -> (r: bool)
    ensures
        r == (s@ == t@),
{
    if s.len() != t.len() {
        return false;
    }
    let mut i: usize = 0;
    while i < s.len()
        invariant
            s@.len() == t@.len(),
            i <= s@.len(),
            forall|j: int| 0 <= j < i ==> s@[j] == t@[j],
        decreases s@.len() - i,
    {
        if s[i] != t[i] {
            return false;
        }
        i = i + 1;
    }
    proof {
        assert(s@ =~= t@);
    }
    true
}

fn parse_text_bool(s: &Vec<u8>) -> (r: Option<bool>)
    ensures
        r == text_bool(s@),
{
    let t = trim(s.as_slice());
    let w = lower(&t);
    let tr: [u8; 4] = [116u8, 114u8, 117u8, 101u8];
    let yes: [u8; 3] = [121u8, 101u8, 115u8];
    let on: [u8; 2] = [111u8, 110u8];
    let one: [u8; 1] = [49u8];
    let fa: [u8; 5] = [102u8, 97u8, 108u8, 115u8, 101u8];
    let no: [u8; 2] = [110u8, 111u8];
    let off: [u8; 3] = [111u8, 102u8, 102u8];
    let zero: [u8; 1] = [48u8];
    proof {
        assert(tr@ =~= seq![116u8, 114u8, 117u8, 101u8]);
        assert(yes@ =~= seq![121u8, 101u8, 115u8]);
        assert(on@ =~= seq![111u8, 110u8]);
        assert(one@ =~= seq![49u8]);
        assert(fa@ =~= seq![102u8, 97u8, 108u8, 115u8, 101u8]);
        assert(no@ =~= seq![110u8, 111u8]);
        assert(off@ =~= seq![111u8, 102u8, 102u8]);
        assert(zero@ =~= seq![48u8]);
    }
    if is_prefix(&w, tr.as_slice()) || is_prefix(&w, yes.as_slice()) || bytes_equal(
        &w,
        on.as_slice(),
    ) || bytes_equal(&w, one.as_slice()) {
        Some(true)
    } else if is_prefix(&w, fa.as_slice()) || is_prefix(&w, no.as_slice()) || (w.len() >= 2
        && is_prefix(&w, off.as_slice())) || bytes_equal(&w, zero.as_slice()) {
        Some(false)
    } else {
        None
    }
}

fn parse_binary_int(s: &[u8]) -> (r: Option<i64>)
    ensures
        match r {
            Some(n) => binary_int(s@) == Some(n as int),
            None => binary_int(s@) is None,
        },
{
    if s.len() != 8 {
        return None;
    }
    let u: u64 = (s[0] as u64) * 0x100000000000000 + (s[1] as u64) * 0x1000000000000 + (s[2] as u64)
        * 0x10000000000 + (s[3] as u64) * 0x100000000 + (s[4] as u64) * 0x1000000 + (s[5] as u64)
        * 0x10000 + (s[6] as u64) * 0x100 + (s[7] as u64);
    if u >= 0x8000000000000000 {
        Some(i64::MIN + ((u - 0x8000000000000000) as i64))
    } else {
        Some(u as i64)
    }
}

fn parse_binary_bool(s: &Vec<u8>) -> (r: Option<bool>)
    ensures
        r == binary_bool(s@),
{
    if s.len() == 1 && s[0] == 1 {
        proof {
            assert(s@ =~= seq![1u8]);
        }
        Some(true)
    } else if s.len() == 1 && s[0] == 0 {
        proof {
            assert(s@ =~= seq![0u8]);
        }
        Some(false)
    } else {
        None
    }
}

pub(crate) fn copy_bytes(s: &[u8]) -> (r: Vec<u8>)
    ensures
        r@ == s@,
{
    let mut out: Vec<u8> = Vec::new();
    let mut i: usize = 0;
    while i < s.len()
        invariant
            i <= s@.len(),
            out@ == s@.subrange(0, i as int),
        decreases s@.len() - i,
    {
        out.push(s[i]);
        i = i + 1;
    }
    proof {
        assert(out@ =~= s@);
    }
    out
}

/// Decodes `v` under the declared type `t`.
pub fn decode(t: ParamType, v: &BindValue) -> (r: Option<Literal>)
    ensures
        match r {
            Some(l) => decode_spec(t, v@) == Some(l@),
            None => decode_spec(t, v@) is None,
        },
{
    match v {
        BindValue::Null => Some(Literal::Null),
        BindValue::Text(s) => match t {
            ParamType::Int8 => match parse_text_int(s.as_slice()) {
                Some(n) => Some(Literal::Int(n)),
                None => None,
            },
            ParamType::Bool => match parse_text_bool(s) {
                Some(b) => Some(Literal::Bool(b)),
                None => None,
            },
            ParamType::Text => Some(Literal::Str(copy_bytes(s.as_slice()))),
        },
        BindValue::Binary(s) => match t {
            ParamType::Int8 => match parse_binary_int(s.as_slice()) {
                Some(n) => Some(Literal::Int(n)),
                None => None,
            },
            ParamType::Bool => match parse_binary_bool(s) {
                Some(b) => Some(Literal::Bool(b)),
                None => None,
            },
            ParamType::Text => Some(Literal::Str(copy_bytes(s.as_slice()))),
        },
    }
}

} // verus!

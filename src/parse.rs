use crate::value::{pair_views, views, Node, Value};
use vstd::prelude::*;

verus! {

/// `i`, which opens an integer.
pub const INT_TAG: u8 = 0x69;
/// `l`, which opens a list.
pub const LIST_TAG: u8 = 0x6c;
/// `d`, which opens a dictionary.
pub const DICT_TAG: u8 = 0x64;
/// `e`, which closes an integer, a list or a dictionary.
pub const END_TAG: u8 = 0x65;
/// `:`, between a string's length and its bytes.
pub const COLON: u8 = 0x3a;
/// `-`, the sign of a negative integer.
pub const MINUS: u8 = 0x2d;
pub const DIGIT_ZERO: u8 = 0x30;
pub const DIGIT_NINE: u8 = 0x39;

/// The ways a decode can fail. Each names the first grammar rule that the
/// input breaks.
#[derive(Debug, Copy, Clone, PartialEq, Eq, Structural)]
pub enum ParseError {
    /// No digit where a string length or an integer magnitude was required.
    UnsignedIntegerExpected,
    /// A string length not followed by `:`.
    ColonExpected,
    /// The input ended where a value was expected, inside a string's
    /// declared bytes, or inside a list before its `e`.
    UnexpectedEndOfInput,
    /// The integer `i-0e`.
    NegativeZeroOccurred,
    /// Integer digits not followed by `e`.
    IntegerSuffixExpected,
    /// A value starting with a byte that begins none of the four forms.
    UnrecognizedPrefix,
    /// A dictionary key that decoded to something other than a string.
    DictionaryKeyMustBeString,
    /// The input ended inside a dictionary, where a key or `e` was expected.
    ExpectedDictionaryKeyOrTerminator,
    /// A well-formed integer whose value does not fit in an `i64`.
    IntegerOverflow,
}

pub type IParseResult<T> = Result<T, ParseError>;

/// Largest magnitude of a negative `i64`.
pub open spec fn neg_limit() -> nat {
    0x8000_0000_0000_0000
}

/// Largest `i64`.
pub open spec fn pos_limit() -> nat {
    0x7fff_ffff_ffff_ffff
}

pub open spec fn is_digit(b: u8) -> bool {
    DIGIT_ZERO <= b <= DIGIT_NINE
}

/// The first index at or after `pos` that does not hold an ASCII digit.
pub open spec fn digits_end(s: Seq<u8>, pos: int) -> int
    decreases s.len() - pos,
{
    if 0 <= pos < s.len() && is_digit(s[pos]) {
        digits_end(s, pos + 1)
    } else {
        pos
    }
}

/// The decimal value of the digits `s[start..end]`.
pub open spec fn digits_value(s: Seq<u8>, start: int, end: int) -> nat
    decreases end - start,
{
    if end <= start {
        0
    } else {
        digits_value(s, start, end - 1) * 10 + (s[end - 1] - DIGIT_ZERO) as nat
    }
}

/// `i<optional '-'><digits>e`, with `s[pos] == 'i'`.
pub open spec fn integer_at(s: Seq<u8>, pos: int) -> Result<(Node, int), ParseError> {
    let neg = pos + 1 < s.len() && s[pos + 1] == MINUS;
    let start = if neg {
        pos + 2
    } else {
        pos + 1
    };
    let end = digits_end(s, start);
    let m = digits_value(s, start, end);
    if end == start {
        Err(ParseError::UnsignedIntegerExpected)
    } else if neg && m == 0 {
        Err(ParseError::NegativeZeroOccurred)
    } else if end >= s.len() || s[end] != END_TAG {
        Err(ParseError::IntegerSuffixExpected)
    } else if (neg && m > neg_limit()) || (!neg && m > pos_limit()) {
        Err(ParseError::IntegerOverflow)
    } else {
        Ok((Node::Int(if neg { -m } else { m as int }), end + 1))
    }
}

/// `<length>:<bytes>`, starting at `pos`.
pub open spec fn string_at(s: Seq<u8>, pos: int) -> Result<(Node, int), ParseError> {
    let end = digits_end(s, pos);
    let n = digits_value(s, pos, end);
    if end == pos {
        Err(ParseError::UnsignedIntegerExpected)
    } else if end >= s.len() || s[end] != COLON {
        Err(ParseError::ColonExpected)
    } else if end + 1 + n > s.len() {
        Err(ParseError::UnexpectedEndOfInput)
    } else {
        Ok((Node::Str(s.subrange(end + 1, end + 1 + n)), end + 1 + n))
    }
}

/// The value that starts at `pos`, and the index just after it.
pub open spec fn node_at(s: Seq<u8>, pos: int) -> Result<(Node, int), ParseError>
    decreases s.len() - pos, 0int,
{
    if pos < 0 || pos >= s.len() {
        Err(ParseError::UnexpectedEndOfInput)
    } else if s[pos] == INT_TAG {
        integer_at(s, pos)
    } else if s[pos] == LIST_TAG {
        match list_items(s, pos + 1) {
            Ok((items, end)) => Ok((Node::List(items), end)),
            Err(e) => Err(e),
        }
    } else if s[pos] == DICT_TAG {
        match dict_items(s, pos + 1) {
            Ok((items, end)) => Ok((Node::Dict(items), end)),
            Err(e) => Err(e),
        }
    } else if is_digit(s[pos]) {
        string_at(s, pos)
    } else {
        Err(ParseError::UnrecognizedPrefix)
    }
}

/// The elements of a list from `pos` up to and including its `e`.
pub open spec fn list_items(s: Seq<u8>, pos: int) -> Result<(Seq<Node>, int), ParseError>
    decreases s.len() - pos, 1int,
{
    if pos < 0 || pos >= s.len() {
        Err(ParseError::UnexpectedEndOfInput)
    } else if s[pos] == END_TAG {
        Ok((seq![], pos + 1))
    } else {
        match node_at(s, pos) {
            Err(e) => Err(e),
            Ok((v, next)) => if pos < next <= s.len() {
                match list_items(s, next) {
                    Ok((rest, end)) => Ok((seq![v] + rest, end)),
                    Err(e) => Err(e),
                }
            } else {
                Err(ParseError::UnexpectedEndOfInput)
            },
        }
    }
}

/// The pairs of a dictionary from `pos` up to and including its `e`. A
/// pair's key and value are both read before the key's kind is checked.
pub open spec fn dict_items(s: Seq<u8>, pos: int) -> Result<(Seq<(Node, Node)>, int), ParseError>
    decreases s.len() - pos, 1int,
{
    if pos < 0 || pos >= s.len() {
        Err(ParseError::ExpectedDictionaryKeyOrTerminator)
    } else if s[pos] == END_TAG {
        Ok((seq![], pos + 1))
    } else {
        match node_at(s, pos) {
            Err(e) => Err(e),
            Ok((k, n1)) => if pos < n1 <= s.len() {
                match node_at(s, n1) {
                    Err(e) => Err(e),
                    Ok((v, n2)) => if !(k is Str) {
                        Err(ParseError::DictionaryKeyMustBeString)
                    } else if n1 < n2 <= s.len() {
                        match dict_items(s, n2) {
                            Ok((rest, end)) => Ok((seq![(k, v)] + rest, end)),
                            Err(e) => Err(e),
                        }
                    } else {
                        Err(ParseError::UnexpectedEndOfInput)
                    },
                }
            } else {
                Err(ParseError::UnexpectedEndOfInput)
            },
        }
    }
}

/// The value at the start of `s`; bytes after it are ignored.
pub open spec fn decode(s: Seq<u8>) -> Result<Node, ParseError> {
    match node_at(s, 0) {
        Ok((n, _)) => Ok(n),
        Err(e) => Err(e),
    }
}

/// `acc` followed by the items of `r`, or the error of `r`.
pub open spec fn prepend_items<T>(acc: Seq<T>, r: Result<(Seq<T>, int), ParseError>) -> Result<
    (Seq<T>, int),
    ParseError,
> {
    match r {
        Ok((rest, end)) => Ok((acc + rest, end)),
        Err(e) => Err(e),
    }
}

/// An executable decode step agrees with the grammar: the same value and
/// end, or the same error.
pub open spec fn agrees(r: IParseResult<(Value, usize)>, g: Result<(Node, int), ParseError>) -> bool {
    match r {
        Ok((v, n)) => g == Ok::<(Node, int), ParseError>((v@, n as int)),
        Err(e) => g == Err::<(Node, int), ParseError>(e),
    }
}

/// Digit values are accumulated up to this bound, which exceeds every
/// string length and every `i64` magnitude.
pub const MAGNITUDE_CAP: u128 = 0x1_0000_0000_0000_0000;

pub open spec fn capped(n: nat) -> nat {
    if n > MAGNITUDE_CAP {
        MAGNITUDE_CAP as nat
    } else {
        n
    }
}

/// Reads the digits at `pos`: their value, capped, and the index after them.
fn parse_unsigned_integer(s: &[u8], pos: usize) -> (r: IParseResult<(u128, usize)>)
    requires
        pos <= s@.len(),
    ensures
        match r {
            Ok((num, end)) => {
                &&& end == digits_end(s@, pos as int)
                &&& end > pos
                &&& num as nat == capped(digits_value(s@, pos as int, end as int))
            },
            Err(e) => {
                &&& e == ParseError::UnsignedIntegerExpected
                &&& digits_end(s@, pos as int) == pos
            },
        },
{
    let mut i: usize = pos;
    let mut num: u128 = 0;
    while i < s.len() && DIGIT_ZERO <= s[i] && s[i] <= DIGIT_NINE
        invariant
            pos <= i <= s@.len(),
            digits_end(s@, pos as int) == digits_end(s@, i as int),
            num as nat == capped(digits_value(s@, pos as int, i as int)),
        decreases s@.len() - i,
    {
        let ghost before = digits_value(s@, pos as int, i as int);
        let d: u128 = (s[i] - DIGIT_ZERO) as u128;
        proof {
            assert(digits_value(s@, pos as int, i + 1) == before * 10 + d);
            assert(before * 10 >= before) by (nonlinear_arith);
            assert(num * 10 <= MAGNITUDE_CAP * 10) by (nonlinear_arith)
                requires num <= MAGNITUDE_CAP;
            if before > MAGNITUDE_CAP {
                assert(num == MAGNITUDE_CAP);
            }
        }
        num = num * 10 + d;
        if num > MAGNITUDE_CAP {
            num = MAGNITUDE_CAP;
        }
        i = i + 1;
    }
    if i == pos {
        Err(ParseError::UnsignedIntegerExpected)
    } else {
        Ok((num, i))
    }
}

/// `<length>:<bytes>` at `pos`; the declared length is checked against the
/// bytes that remain before any is copied.
fn parse_string(s: &[u8], pos: usize) -> (r: IParseResult<(Value, usize)>)
    requires
        pos <= s@.len(),
    ensures
        agrees(r, string_at(s@, pos as int)),
        r matches Ok((_, n)) ==> pos < n <= s@.len(),
{
    let (len, end) = match parse_unsigned_integer(s, pos) {
        Ok(x) => x,
        Err(e) => return Err(e),
    };
    if end >= s.len() || s[end] != COLON {
        return Err(ParseError::ColonExpected);
    }
    let start = end + 1;
    if len > (s.len() - start) as u128 {
        return Err(ParseError::UnexpectedEndOfInput);
    }
    let stop = start + len as usize;
    let mut bytes: Vec<u8> = Vec::new();
    let mut j: usize = start;
    while j < stop
        invariant
            start <= j <= stop <= s@.len(),
            bytes@ == s@.subrange(start as int, j as int),
        decreases stop - j,
    {
        bytes.push(s[j]);
        j = j + 1;
        assert(bytes@ =~= s@.subrange(start as int, j as int));
    }
    Ok((Value::String(bytes), stop))
}

/// `i<optional '-'><digits>e` at `pos`.
fn parse_integer(s: &[u8], pos: usize) -> (r: IParseResult<(Value, usize)>)
    requires
        pos < s@.len(),
        s@[pos as int] == INT_TAG,
    ensures
        agrees(r, integer_at(s@, pos as int)),
        r matches Ok((_, n)) ==> pos < n <= s@.len(),
{
    let len: usize = s.len();
    let mut start = pos + 1;
    let neg = start < len && s[start] == MINUS;
    if neg {
        start = start + 1;
    }
    let (m, end) = match parse_unsigned_integer(s, start) {
        Ok(x) => x,
        Err(e) => return Err(e),
    };
    if neg && m == 0 {
        return Err(ParseError::NegativeZeroOccurred);
    }
    if end >= len || s[end] != END_TAG {
        return Err(ParseError::IntegerSuffixExpected);
    }
    let value: i64 = if neg {
        if m > 0x8000_0000_0000_0000 {
            return Err(ParseError::IntegerOverflow);
        }
        if m == 0x8000_0000_0000_0000 {
            i64::MIN
        } else {
            -(m as i64)
        }
    } else {
        if m > 0x7fff_ffff_ffff_ffff {
            return Err(ParseError::IntegerOverflow);
        }
        m as i64
    };
    Ok((Value::Integer(value), end + 1))
}

/// Decodes the value that starts at `pos`, dispatching on its first byte.
fn try_parse_value_from_peekable(s: &[u8], pos: usize) -> (r: IParseResult<(Value, usize)>)
    requires
        pos <= s@.len(),
    ensures
        agrees(r, node_at(s@, pos as int)),
        r matches Ok((_, n)) ==> pos < n <= s@.len(),
    decreases s@.len() - pos, 1int,
{
    if pos >= s.len() {
        return Err(ParseError::UnexpectedEndOfInput);
    }
    let b = s[pos];
    if b == INT_TAG {
        parse_integer(s, pos)
    } else if b == LIST_TAG {
        parse_list(s, pos)
    } else if b == DICT_TAG {
        parse_dictionary(s, pos)
    } else if DIGIT_ZERO <= b && b <= DIGIT_NINE {
        parse_string(s, pos)
    } else {
        Err(ParseError::UnrecognizedPrefix)
    }
}

/// `l<values>e` at `pos`.
fn parse_list(s: &[u8], pos: usize) -> (r: IParseResult<(Value, usize)>)
    requires
        pos < s@.len(),
        s@[pos as int] == LIST_TAG,
    ensures
        agrees(r, node_at(s@, pos as int)),
        r matches Ok((_, n)) ==> pos < n <= s@.len(),
    decreases s@.len() - pos, 0int,
{
    let len: usize = s.len();
    let mut list: Vec<Value> = Vec::new();
    let mut p: usize = pos + 1;
    assert(views(list@) =~= Seq::<Node>::empty());
    assert(prepend_items(views(list@), list_items(s@, p as int)) =~= list_items(s@, p as int)) by {
        match list_items(s@, p as int) {
            Ok((rest, e)) => assert(Seq::<Node>::empty() + rest =~= rest),
            Err(_) => {},
        }
    }
    loop
        invariant
            pos < p <= s@.len(),
            len == s@.len(),
            s@[pos as int] == LIST_TAG,
            list_items(s@, pos + 1) == prepend_items(views(list@), list_items(s@, p as int)),
        decreases s@.len() - p,
    {
        if p >= len {
            return Err(ParseError::UnexpectedEndOfInput);
        }
        if s[p] == END_TAG {
            proof {
                assert(views(list@) + seq![] =~= views(list@));
                crate::value::lemma_list_view(list);
            }
            return Ok((Value::List(list), p + 1));
        }
        match try_parse_value_from_peekable(s, p) {
            Err(e) => {
                return Err(e);
            },
            Ok((v, n)) => {
                let ghost acc = views(list@);
                list.push(v);
                proof {
                    assert(views(list@) =~= acc.push(v@));
                    match list_items(s@, n as int) {
                        Ok((rest, e)) => {
                            assert(acc + (seq![v@] + rest) =~= acc.push(v@) + rest);
                        },
                        Err(_) => {},
                    }
                }
                p = n;
            },
        }
    }
}

/// `d<key value ...>e` at `pos`.
fn parse_dictionary(s: &[u8], pos: usize) -> (r: IParseResult<(Value, usize)>)
    requires
        pos < s@.len(),
        s@[pos as int] == DICT_TAG,
    ensures
        agrees(r, node_at(s@, pos as int)),
        r matches Ok((_, n)) ==> pos < n <= s@.len(),
    decreases s@.len() - pos, 0int,
{
    let len: usize = s.len();
    let mut dict: Vec<(Value, Value)> = Vec::new();
    let mut p: usize = pos + 1;
    assert(pair_views(dict@) =~= Seq::<(Node, Node)>::empty());
    assert(prepend_items(pair_views(dict@), dict_items(s@, p as int)) =~= dict_items(s@, p as int)) by {
        match dict_items(s@, p as int) {
            Ok((rest, e)) => assert(Seq::<(Node, Node)>::empty() + rest =~= rest),
            Err(_) => {},
        }
    }
    loop
        invariant
            pos < p <= s@.len(),
            len == s@.len(),
            s@[pos as int] == DICT_TAG,
            dict_items(s@, pos + 1) == prepend_items(pair_views(dict@), dict_items(s@, p as int)),
        decreases s@.len() - p,
    {
        if p >= len {
            return Err(ParseError::ExpectedDictionaryKeyOrTerminator);
        }
        if s[p] == END_TAG {
            proof {
                assert(pair_views(dict@) + seq![] =~= pair_views(dict@));
                crate::value::lemma_dict_view(dict);
            }
            return Ok((Value::Dictionary(dict), p + 1));
        }
        let (key, n1) = match try_parse_value_from_peekable(s, p) {
            Err(e) => return Err(e),
            Ok(x) => x,
        };
        let (value, n2) = match try_parse_value_from_peekable(s, n1) {
            Err(e) => return Err(e),
            Ok(x) => x,
        };
        match key {
            Value::String(_) => {},
            _ => return Err(ParseError::DictionaryKeyMustBeString),
        }
        let ghost acc = pair_views(dict@);
        dict.push((key, value));
        proof {
            assert(pair_views(dict@) =~= acc.push((key@, value@)));
            match dict_items(s@, n2 as int) {
                Ok((rest, e)) => {
                    assert(acc + (seq![(key@, value@)] + rest) =~= acc.push((key@, value@)) + rest);
                },
                Err(_) => {},
            }
        }
        p = n2;
    }
}

/// Decodes the value at the start of `source`. Bytes after that value are
/// not read; an empty input is `UnexpectedEndOfInput`.
pub fn try_parse_value(source: &[u8]) -> (r: IParseResult<Value>)
    ensures
        match r {
            Ok(v) => decode(source@) == Ok::<Node, ParseError>(v@),
            Err(e) => decode(source@) == Err::<Node, ParseError>(e),
        },
{
    match try_parse_value_from_peekable(source, 0) {
        Ok((v, _)) => Ok(v),
        Err(e) => Err(e),
    }
}

} // verus!

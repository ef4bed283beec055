use crate::value::{lemma_dict_view, lemma_list_view, lossy_text, pair_views, views, Node, Value};
use vstd::prelude::*;
use vstd::string::*;
use vstd::utf8::*;

verus! {

/// Lowercase hex digit `d < 16` as a character.
pub open spec fn hex_char(d: nat) -> char {
    seq!['0', '1', '2', '3', '4', '5', '6', '7', '8', '9', 'a', 'b', 'c', 'd', 'e', 'f'][d as int]
}

/// The decimal digits of `n`, without leading zeros.
pub open spec fn decimal_chars(n: nat) -> Seq<char>
    decreases n,
{
    if n < 10 {
        seq![hex_char(n)]
    } else {
        decimal_chars(n / 10).push(hex_char(n % 10))
    }
}

pub open spec fn int_chars(i: int) -> Seq<char> {
    if i < 0 {
        seq!['-'] + decimal_chars((-i) as nat)
    } else {
        decimal_chars(i as nat)
    }
}

/// A byte in hex without padding: one digit below 16, two from there on.
pub open spec fn byte_hex(b: u8) -> Seq<char> {
    if b < 16 {
        seq![hex_char(b as nat)]
    } else {
        seq![hex_char((b / 16) as nat), hex_char((b % 16) as nat)]
    }
}

pub open spec fn hex_chars(b: Seq<u8>) -> Seq<char>
    decreases b.len(),
{
    if b.len() == 0 {
        seq![]
    } else {
        hex_chars(b.drop_last()) + byte_hex(b.last())
    }
}

/// A string leaf as text: its UTF-8 text when valid, else `0x` and its bytes
/// in hex.
pub open spec fn leaf_text(b: Seq<u8>) -> Seq<char> {
    if valid_utf8(b) {
        decode_utf8(b)
    } else {
        seq!['0', 'x'] + hex_chars(b)
    }
}

/// Text of more than 54 bytes and at least 40 characters keeps its first and
/// last 20 characters around a count of the characters left out.
pub open spec fn shorten_text(s: Seq<char>) -> Seq<char> {
    if encode_utf8(s).len() <= 54 || s.len() < 40 {
        s
    } else {
        s.subrange(0, 20) + seq!['.', '.', '.'] + decimal_chars((s.len() - 40) as nat) + seq![
            ' ',
            'c',
            'h',
            'a',
            'r',
            's',
            '.',
            '.',
            '.',
        ] + s.subrange(s.len() - 20, s.len() as int)
    }
}

/// A dictionary key as text in a path; a key that is not a string (which a
/// decoded tree never holds) stands as nothing.
pub open spec fn key_text(k: Node) -> Seq<char> {
    match k {
        Node::Str(b) => lossy_text(b),
        _ => seq![],
    }
}

/// One line per leaf of `n`, in order: `path = 'text'` for a string and
/// `path = number` for an integer. A list element's path adds `[index]`, a
/// dictionary value's path adds `['key']`.
pub open spec fn outline_of(n: Node, prefix: Seq<char>) -> Seq<Seq<char>>
    decreases n,
{
    match n {
        Node::Str(b) => seq![
            prefix + seq![' ', '=', ' ', '\''] + shorten_text(leaf_text(b)) + seq!['\''],
        ],
        Node::Int(i) => seq![prefix + seq![' ', '=', ' '] + int_chars(i)],
        Node::List(items) => list_outline(items, prefix),
        Node::Dict(kv) => dict_outline(kv, prefix),
    }
}

pub open spec fn list_outline(items: Seq<Node>, prefix: Seq<char>) -> Seq<Seq<char>>
    decreases items,
{
    if items.len() == 0 {
        seq![]
    } else {
        let i = items.len() - 1;
        list_outline(items.subrange(0, i), prefix) + outline_of(
            items[i],
            prefix + seq!['['] + decimal_chars(i as nat) + seq![']'],
        )
    }
}

pub open spec fn dict_outline(kv: Seq<(Node, Node)>, prefix: Seq<char>) -> Seq<Seq<char>>
    decreases kv,
{
    if kv.len() == 0 {
        seq![]
    } else {
        let i = kv.len() - 1;
        dict_outline(kv.subrange(0, i), prefix) + outline_of(
            kv[i].1,
            prefix + seq!['[', '\''] + key_text(kv[i].0) + seq!['\'', ']'],
        )
    }
}

/// The texts of some strings.
pub open spec fn texts(v: Seq<String>) -> Seq<Seq<char>> {
    Seq::new(v.len(), |i: int| v[i]@)
}

/// Relies on `std::str::from_utf8`: `Ok` exactly when the bytes are valid
/// UTF-8, with the text they encode.
#[verifier::external_body]
fn utf8_text(b: &[u8]) -> (r: Option<&str>)
    ensures
        r is Some <==> valid_utf8(b@),
        r matches Some(s) ==> s@ == decode_utf8(b@),
{
    std::str::from_utf8(b).ok()
}

fn append_hex_digit(out: &mut String, d: u8)
    requires
        d < 16,
    ensures
        final(out)@ == old(out)@ + seq![hex_char(d as nat)],
{
    let table = "0123456789abcdef";
    proof {
        reveal_strlit("0123456789abcdef");
    }
    let digit = table.substring_char(d as usize, d as usize + 1);
    assert(digit@ =~= seq![hex_char(d as nat)]);
    out.append(digit);
}

fn append_decimal(out: &mut String, n: u64)
    ensures
        final(out)@ == old(out)@ + decimal_chars(n as nat),
    decreases n,
{
    if n >= 10 {
        append_decimal(out, n / 10);
    }
    append_hex_digit(out, (n % 10) as u8);
    assert(out@ =~= old(out)@ + decimal_chars(n as nat));
}

fn hex_string(b: &[u8]) -> (r: String)
    ensures
        r@ == hex_chars(b@),
{
    let mut out = String::new();
    let mut i: usize = 0;
    while i < b.len()
        invariant
            i <= b@.len(),
            out@ == hex_chars(b@.subrange(0, i as int)),
        decreases b@.len() - i,
    {
        let x = b[i];
        if x >= 16 {
            append_hex_digit(&mut out, x / 16);
        }
        append_hex_digit(&mut out, x % 16);
        proof {
            let next = b@.subrange(0, i + 1);
            assert(next.drop_last() =~= b@.subrange(0, i as int));
            assert(out@ =~= hex_chars(next));
        }
        i = i + 1;
    }
    assert(b@.subrange(0, b@.len() as int) =~= b@);
    out
}

/// Text longer than 54 bytes comes back as its first 20 characters, `...`,
/// the count of characters left out, ` chars...` and its last 20 characters.
/// Text under 40 characters is kept whole.
pub fn shorten(s: &str) -> (r: String)
    ensures
        r@ == shorten_text(s@),
{
    if s.as_bytes().len() <= 54 {
        return s.to_owned();
    }
    let n = s.unicode_len();
    if n < 40 {
        return s.to_owned();
    }
    let mut out = s.substring_char(0, 20).to_owned();
    let dots = "...";
    let tail = " chars...";
    proof {
        reveal_strlit("...");
        reveal_strlit(" chars...");
    }
    out.append(dots);
    append_decimal(&mut out, (n - 40) as u64);
    out.append(tail);
    out.append(s.substring_char(n - 20, n));
    assert(out@ =~= shorten_text(s@));
    out
}

fn leaf_line(prefix: &str, bytes: &Vec<u8>) -> (r: String)
    ensures
        r@ == prefix@ + seq![' ', '=', ' ', '\''] + shorten_text(leaf_text(bytes@)) + seq!['\''],
{
    let shortened = match utf8_text(bytes.as_slice()) {
        Some(text) => shorten(text),
        None => {
            let mut hex = String::from_str("0x");
            proof {
                reveal_strlit("0x");
            }
            let digits = hex_string(bytes.as_slice());
            hex.append(digits.as_str());
            assert(hex@ =~= leaf_text(bytes@));
            shorten(hex.as_str())
        },
    };
    let mut line = prefix.to_owned();
    let open = " = '";
    let close = "'";
    proof {
        reveal_strlit(" = '");
        reveal_strlit("'");
    }
    line.append(open);
    line.append(shortened.as_str());
    line.append(close);
    assert(line@ =~= prefix@ + seq![' ', '=', ' ', '\''] + shorten_text(leaf_text(bytes@)) + seq!['\'']);
    line
}

fn int_line(prefix: &str, i: i64) -> (r: String)
    ensures
        r@ == prefix@ + seq![' ', '=', ' '] + int_chars(i as int),
{
    let mut line = prefix.to_owned();
    let eq = " = ";
    let minus = "-";
    proof {
        reveal_strlit(" = ");
        reveal_strlit("-");
    }
    line.append(eq);
    if i < 0 {
        line.append(minus);
        append_decimal(&mut line, (-(i as i128)) as u64);
    } else {
        append_decimal(&mut line, i as u64);
    }
    assert(line@ =~= prefix@ + seq![' ', '=', ' '] + int_chars(i as int));
    line
}

/// Appends the lines of `value` under `prefix` to `out`.
fn outline_lines(value: &Value, prefix: &str, out: &mut Vec<String>)
    ensures
        texts(final(out)@) == texts(old(out)@) + outline_of(value@, prefix@),
    decreases value,
{
    match value {
        Value::String(bytes) => {
            let line = leaf_line(prefix, bytes);
            out.push(line);
            assert(texts(out@) =~= texts(old(out)@) + outline_of(value@, prefix@));
        },
        Value::Integer(i) => {
            let line = int_line(prefix, *i);
            out.push(line);
            assert(texts(out@) =~= texts(old(out)@) + outline_of(value@, prefix@));
        },
        Value::List(vs) => {
            proof {
                lemma_list_view(*vs);
            }
            let ghost items = views(vs@);
            let mut i: usize = 0;
            assert(texts(out@) =~= texts(old(out)@) + list_outline(items.subrange(0, 0), prefix@));
            while i < vs.len()
                invariant
                    i <= vs@.len(),
                    items == views(vs@),
                    *value == Value::List(*vs),
                    texts(out@) == texts(old(out)@) + list_outline(items.subrange(0, i as int), prefix@),
                decreases vs@.len() - i,
            {
                let ghost before = texts(out@);
                let mut path = prefix.to_owned();
                let open = "[";
                let close = "]";
                proof {
                    reveal_strlit("[");
                    reveal_strlit("]");
                }
                path.append(open);
                append_decimal(&mut path, i as u64);
                path.append(close);
                proof {
                    assert(decreases_to!(*value => value->List_0));
                    assert(decreases_to!(*vs => vs@));
                    assert(decreases_to!(vs@ => vs@[i as int]));
                }
                outline_lines(&vs[i], path.as_str(), out);
                proof {
                    let next = items.subrange(0, i + 1);
                    assert(next.subrange(0, i as int) =~= items.subrange(0, i as int));
                    assert(next[i as int] == vs@[i as int]@);
                    assert(path@ =~= prefix@ + seq!['['] + decimal_chars(i as nat) + seq![']']);
                    assert(texts(out@) =~= texts(old(out)@) + list_outline(next, prefix@));
                }
                i = i + 1;
            }
            assert(items.subrange(0, vs@.len() as int) =~= items);
        },
        Value::Dictionary(kv) => {
            proof {
                lemma_dict_view(*kv);
            }
            let ghost items = pair_views(kv@);
            let mut i: usize = 0;
            assert(texts(out@) =~= texts(old(out)@) + dict_outline(items.subrange(0, 0), prefix@));
            while i < kv.len()
                invariant
                    i <= kv@.len(),
                    items == pair_views(kv@),
                    *value == Value::Dictionary(*kv),
                    texts(out@) == texts(old(out)@) + dict_outline(items.subrange(0, i as int), prefix@),
                decreases kv@.len() - i,
            {
                let mut path = prefix.to_owned();
                let open = "['";
                let close = "']";
                proof {
                    reveal_strlit("['");
                    reveal_strlit("']");
                }
                path.append(open);
                match kv[i].0.to_lossy_str() {
                    Some(k) => path.append(k.as_str()),
                    None => {},
                }
                path.append(close);
                proof {
                    assert(decreases_to!(*value => value->Dictionary_0));
                    assert(decreases_to!(*kv => kv@));
                    assert(decreases_to!(kv@ => kv@[i as int]));
                    assert(decreases_to!(kv@[i as int] => kv@[i as int].1));
                }
                outline_lines(&kv[i].1, path.as_str(), out);
                proof {
                    let next = items.subrange(0, i + 1);
                    assert(next.subrange(0, i as int) =~= items.subrange(0, i as int));
                    assert(next[i as int] == (kv@[i as int].0@, kv@[i as int].1@));
                    assert(path@ =~= prefix@ + seq!['[', '\''] + key_text(kv@[i as int].0@) + seq!['\'', ']']);
                    assert(texts(out@) =~= texts(old(out)@) + dict_outline(next, prefix@));
                }
                i = i + 1;
            }
            assert(items.subrange(0, kv@.len() as int) =~= items);
        },
    }
}

/// The lines that describe every leaf of `value` with its path from the
/// root, in order.
pub fn outline(value: &Value) -> (r: Vec<String>)
    ensures
        texts(r@) == outline_of(value@, seq![]),
{
    let mut out: Vec<String> = Vec::new();
    let root = "";
    proof {
        reveal_strlit("");
    }
    assert(texts(out@) =~= seq![]);
    outline_lines(value, root, &mut out);
    assert(root@ =~= Seq::<char>::empty());
    assert(texts(out@) =~= outline_of(value@, seq![]));
    out
}

} // verus!

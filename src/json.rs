use crate::parse::{DIGIT_ZERO, MINUS};
use crate::value::{lemma_dict_view, lemma_list_view, pair_views, views, Node, Value};
use vstd::prelude::*;

verus! {

pub const QUOTE: u8 = 0x22;
pub const BACKSLASH: u8 = 0x5c;
pub const COMMA: u8 = 0x2c;
pub const COLON_MARK: u8 = 0x3a;
pub const OPEN_BRACKET: u8 = 0x5b;
pub const CLOSE_BRACKET: u8 = 0x5d;
pub const OPEN_BRACE: u8 = 0x7b;
pub const CLOSE_BRACE: u8 = 0x7d;
/// `u`, in a `\u00XX` escape.
pub const UNICODE_MARK: u8 = 0x75;
/// `a`, the first hex digit past nine.
pub const HEX_TEN: u8 = 0x61;

/// Lowercase hex digit of `d < 16`.
pub open spec fn hex_digit(d: u8) -> u8 {
    if d < 10 {
        (DIGIT_ZERO + d) as u8
    } else {
        (HEX_TEN + d - 10) as u8
    }
}

/// One byte as it stands inside a JSON string: `"` and `\` are escaped by a
/// backslash, control bytes are written `\u00XX`, all others stand as they are.
pub open spec fn escape_byte(b: u8) -> Seq<u8> {
    if b == QUOTE {
        seq![BACKSLASH, QUOTE]
    } else if b == BACKSLASH {
        seq![BACKSLASH, BACKSLASH]
    } else if b < 0x20 {
        seq![BACKSLASH, UNICODE_MARK, DIGIT_ZERO, DIGIT_ZERO, hex_digit(b / 16), hex_digit(b % 16)]
    } else {
        seq![b]
    }
}

pub open spec fn escape_bytes(bs: Seq<u8>) -> Seq<u8>
    decreases bs.len(),
{
    if bs.len() == 0 {
        seq![]
    } else {
        escape_bytes(bs.drop_last()) + escape_byte(bs.last())
    }
}

/// A byte string as a quoted JSON string.
pub open spec fn json_string(bs: Seq<u8>) -> Seq<u8> {
    seq![QUOTE] + escape_bytes(bs) + seq![QUOTE]
}

/// The decimal digits of `n`, without leading zeros.
pub open spec fn decimal(n: nat) -> Seq<u8>
    decreases n,
{
    if n < 10 {
        seq![(DIGIT_ZERO + n) as u8]
    } else {
        decimal(n / 10).push((DIGIT_ZERO + n % 10) as u8)
    }
}

/// An integer as a decimal literal, with `-` before a negative one.
pub open spec fn int_text(i: int) -> Seq<u8> {
    if i < 0 {
        seq![MINUS] + decimal((-i) as nat)
    } else {
        decimal(i as nat)
    }
}

/// The JSON text of a node.
pub open spec fn json_of(n: Node) -> Seq<u8>
    decreases n,
{
    match n {
        Node::Str(b) => json_string(b),
        Node::Int(i) => int_text(i),
        Node::List(items) => seq![OPEN_BRACKET] + json_items(items) + seq![CLOSE_BRACKET],
        Node::Dict(kv) => seq![OPEN_BRACE] + json_entries(kv) + seq![CLOSE_BRACE],
    }
}

/// The JSON texts of `items`, joined by commas.
pub open spec fn json_items(items: Seq<Node>) -> Seq<u8>
    decreases items,
{
    if items.len() == 0 {
        seq![]
    } else if items.len() == 1 {
        json_of(items[0])
    } else {
        json_items(items.subrange(0, items.len() - 1)) + seq![COMMA] + json_of(
            items[items.len() - 1],
        )
    }
}

/// `key:value` for each pair, joined by commas.
pub open spec fn json_entries(kv: Seq<(Node, Node)>) -> Seq<u8>
    decreases kv,
{
    if kv.len() == 0 {
        seq![]
    } else if kv.len() == 1 {
        json_of(kv[0].0) + seq![COLON_MARK] + json_of(kv[0].1)
    } else {
        json_entries(kv.subrange(0, kv.len() - 1)) + seq![COMMA] + json_of(kv[kv.len() - 1].0)
            + seq![COLON_MARK] + json_of(kv[kv.len() - 1].1)
    }
}

fn hex_digit_byte(d: u8) -> (r: u8)
    requires
        d < 16,
    ensures
        r == hex_digit(d),
{
    if d < 10 {
        DIGIT_ZERO + d
    } else {
        HEX_TEN + d - 10
    }
}

/// Appends `escape_bytes(bytes)`.
fn write_escaped(bytes: &Vec<u8>, w: &mut Vec<u8>)
    ensures
        final(w)@ == old(w)@ + escape_bytes(bytes@),
{
    let mut i: usize = 0;
    while i < bytes.len()
        invariant
            i <= bytes@.len(),
            w@ == old(w)@ + escape_bytes(bytes@.subrange(0, i as int)),
        decreases bytes@.len() - i,
    {
        let ghost before = w@;
        let b = bytes[i];
        if b == QUOTE || b == BACKSLASH {
            w.push(BACKSLASH);
            w.push(b);
        } else if b < 0x20 {
            w.push(BACKSLASH);
            w.push(UNICODE_MARK);
            w.push(DIGIT_ZERO);
            w.push(DIGIT_ZERO);
            w.push(hex_digit_byte(b / 16));
            w.push(hex_digit_byte(b % 16));
        } else {
            w.push(b);
        }
        proof {
            let next = bytes@.subrange(0, i + 1);
            assert(next.drop_last() =~= bytes@.subrange(0, i as int));
            assert(w@ =~= before + escape_byte(b));
            assert(old(w)@ + escape_bytes(next) =~= old(w)@ + escape_bytes(bytes@.subrange(0, i as int)) + escape_byte(b));
        }
        i = i + 1;
    }
    assert(bytes@.subrange(0, bytes@.len() as int) =~= bytes@);
}

/// Appends `decimal(n)`.
fn write_decimal(n: u64, w: &mut Vec<u8>)
    ensures
        final(w)@ == old(w)@ + decimal(n as nat),
    decreases n,
{
    if n >= 10 {
        write_decimal(n / 10, w);
    }
    w.push(DIGIT_ZERO + (n % 10) as u8);
    assert(w@ =~= old(w)@ + decimal(n as nat));
}

/// Renders `value` as JSON text, appended to `w`: strings are quoted and
/// escaped, integers are decimal literals, lists are `[a,b]` and dictionaries
/// are `{"k":v}` in their stored order. There is no whitespace.
pub fn write_as_json(value: &Value, w: &mut Vec<u8>)
    ensures
        final(w)@ == old(w)@ + json_of(value@),
    decreases value,
{
    match value {
        Value::String(v) => {
            w.push(QUOTE);
            write_escaped(v, w);
            w.push(QUOTE);
            assert(w@ =~= old(w)@ + json_of(value@));
        },
        Value::Integer(i) => {
            let i = *i;
            if i < 0 {
                w.push(MINUS);
                let magnitude: u64 = (-(i as i128)) as u64;
                write_decimal(magnitude, w);
            } else {
                write_decimal(i as u64, w);
            }
            assert(w@ =~= old(w)@ + json_of(value@));
        },
        Value::List(ls) => {
            proof {
                lemma_list_view(*ls);
            }
            let ghost items = views(ls@);
            w.push(OPEN_BRACKET);
            let mut i: usize = 0;
            while i < ls.len()
                invariant
                    i <= ls@.len(),
                    items == views(ls@),
                    *value == Value::List(*ls),
                    w@ == old(w)@ + seq![OPEN_BRACKET] + json_items(items.subrange(0, i as int)),
                decreases ls@.len() - i,
            {
                let ghost before = w@;
                if i > 0 {
                    w.push(COMMA);
                }
                proof {
                    assert(decreases_to!(*value => value->List_0));
                    assert(decreases_to!(*ls => ls@));
                    assert(decreases_to!(ls@ => ls@[i as int]));
                }
                write_as_json(&ls[i], w);
                proof {
                    let next = items.subrange(0, i + 1);
                    assert(next.subrange(0, i as int) =~= items.subrange(0, i as int));
                    assert(next[i as int] == ls@[i as int]@);
                    if i == 0 {
                        assert(w@ =~= before + json_of(ls@[i as int]@));
                    } else {
                        assert(w@ =~= before + seq![COMMA] + json_of(ls@[i as int]@));
                    }
                }
                i = i + 1;
            }
            w.push(CLOSE_BRACKET);
            assert(items.subrange(0, ls@.len() as int) =~= items);
            assert(w@ =~= old(w)@ + json_of(value@));
        },
        Value::Dictionary(kv) => {
            proof {
                lemma_dict_view(*kv);
            }
            let ghost items = pair_views(kv@);
            w.push(OPEN_BRACE);
            let mut i: usize = 0;
            while i < kv.len()
                invariant
                    i <= kv@.len(),
                    items == pair_views(kv@),
                    *value == Value::Dictionary(*kv),
                    w@ == old(w)@ + seq![OPEN_BRACE] + json_entries(items.subrange(0, i as int)),
                decreases kv@.len() - i,
            {
                let ghost before = w@;
                if i > 0 {
                    w.push(COMMA);
                }
                let ghost mid = w@;
                proof {
                    assert(decreases_to!(*value => value->Dictionary_0));
                    assert(decreases_to!(*kv => kv@));
                    assert(decreases_to!(kv@ => kv@[i as int]));
                    assert(decreases_to!(kv@[i as int] => kv@[i as int].0));
                    assert(decreases_to!(kv@[i as int] => kv@[i as int].1));
                }
                write_as_json(&kv[i].0, w);
                w.push(COLON_MARK);
                write_as_json(&kv[i].1, w);
                proof {
                    let next = items.subrange(0, i + 1);
                    let k = kv@[i as int].0@;
                    let v = kv@[i as int].1@;
                    assert(next.subrange(0, i as int) =~= items.subrange(0, i as int));
                    assert(next[i as int] == (k, v));
                    assert(w@ =~= mid + json_of(k) + seq![COLON_MARK] + json_of(v));
                    if i == 0 {
                        assert(w@ =~= before + (json_of(k) + seq![COLON_MARK] + json_of(v)));
                    } else {
                        assert(w@ =~= before + (seq![COMMA] + json_of(k) + seq![COLON_MARK] + json_of(v)));
                    }
                }
                i = i + 1;
            }
            w.push(CLOSE_BRACE);
            assert(items.subrange(0, kv@.len() as int) =~= items);
            assert(w@ =~= old(w)@ + json_of(value@));
        },
    }
}

/// Rendering depends on the tree alone: values with the same model render
/// to the same bytes, so rendering one tree twice gives identical output.
pub proof fn lemma_render_repeatable(a: &Value, b: &Value)
    requires
        a@ == b@,
    ensures
        json_of(a@) == json_of(b@),
{
}

} // verus!

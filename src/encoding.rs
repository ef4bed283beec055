use crate::json::{decimal, int_text};
use crate::parse::{
    decode, digits_end, digits_value, dict_items, is_digit, list_items, neg_limit, node_at,
    pos_limit, COLON, DICT_TAG, DIGIT_NINE, DIGIT_ZERO, END_TAG, INT_TAG, LIST_TAG, MINUS,
};
use crate::value::Node;
use vstd::prelude::*;

verus! {

/// A tree that the wire format can carry and this decoder can hold: integers
/// fit in an `i64` and every dictionary key is a string.
pub open spec fn encodable(n: Node) -> bool
    decreases n,
{
    match n {
        Node::Str(_) => true,
        Node::Int(i) => -(neg_limit() as int) <= i <= pos_limit(),
        Node::List(items) => forall|i: int| 0 <= i < items.len() ==> encodable(#[trigger] items[i]),
        Node::Dict(kv) => forall|i: int|
            0 <= i < kv.len() ==> (#[trigger] kv[i]).0 is Str && encodable(kv[i].0) && encodable(
                kv[i].1,
            ),
    }
}

/// The canonical encoding of a tree: lengths and integers in decimal without
/// leading zeros, containers closed by `e`, pairs in their stored order.
pub open spec fn encode(n: Node) -> Seq<u8>
    decreases n,
{
    match n {
        Node::Str(b) => decimal(b.len()) + seq![COLON] + b,
        Node::Int(i) => seq![INT_TAG] + int_text(i) + seq![END_TAG],
        Node::List(items) => seq![LIST_TAG] + encode_items(items) + seq![END_TAG],
        Node::Dict(kv) => seq![DICT_TAG] + encode_pairs(kv) + seq![END_TAG],
    }
}

pub open spec fn encode_items(items: Seq<Node>) -> Seq<u8>
    decreases items,
{
    if items.len() == 0 {
        seq![]
    } else {
        encode(items[0]) + encode_items(items.subrange(1, items.len() as int))
    }
}

pub open spec fn encode_pairs(kv: Seq<(Node, Node)>) -> Seq<u8>
    decreases kv,
{
    if kv.len() == 0 {
        seq![]
    } else {
        encode(kv[0].0) + encode(kv[0].1) + encode_pairs(kv.subrange(1, kv.len() as int))
    }
}

/// `s` holds `x` at `pos`.
pub open spec fn holds_at(s: Seq<u8>, pos: int, x: Seq<u8>) -> bool {
    0 <= pos && pos + x.len() <= s.len() && s.subrange(pos, pos + x.len()) == x
}

proof fn lemma_holds_split(s: Seq<u8>, pos: int, x: Seq<u8>, y: Seq<u8>)
    requires
        holds_at(s, pos, x + y),
    ensures
        holds_at(s, pos, x),
        holds_at(s, pos + x.len(), y),
{
    let whole = s.subrange(pos, pos + x.len() + y.len());
    assert(whole == x + y);
    assert(s.subrange(pos, pos + x.len()) =~= whole.subrange(0, x.len() as int));
    assert(whole.subrange(0, x.len() as int) =~= x);
    assert(s.subrange(pos + x.len(), pos + x.len() + y.len()) =~= whole.subrange(
        x.len() as int,
        whole.len() as int,
    ));
    assert(whole.subrange(x.len() as int, whole.len() as int) =~= y);
}

proof fn lemma_holds_index(s: Seq<u8>, pos: int, x: Seq<u8>, i: int)
    requires
        holds_at(s, pos, x),
        0 <= i < x.len(),
    ensures
        s[pos + i] == x[i],
{
    assert(s.subrange(pos, pos + x.len())[i] == s[pos + i]);
}

proof fn lemma_decimal_digits(m: nat)
    ensures
        decimal(m).len() >= 1,
        forall|i: int| 0 <= i < decimal(m).len() ==> is_digit(#[trigger] decimal(m)[i]),
    decreases m,
{
    if m >= 10 {
        lemma_decimal_digits(m / 10);
    }
}

proof fn lemma_digits_end(s: Seq<u8>, p: int, e: int)
    requires
        0 <= p <= e <= s.len(),
        forall|i: int| p <= i < e ==> is_digit(#[trigger] s[i]),
        e == s.len() || !is_digit(s[e]),
    ensures
        digits_end(s, p) == e,
    decreases e - p,
{
    if p < e {
        lemma_digits_end(s, p + 1, e);
    }
}

proof fn lemma_digits_value(s: Seq<u8>, p: int, m: nat)
    requires
        holds_at(s, p, decimal(m)),
    ensures
        digits_value(s, p, p + decimal(m).len()) == m,
    decreases m,
{
    let d = decimal(m);
    let end = p + d.len();
    lemma_holds_index(s, p, d, d.len() - 1);
    if m >= 10 {
        let prefix = decimal(m / 10);
        assert(d == prefix.push((DIGIT_ZERO + m % 10) as u8));
        assert(d =~= prefix + seq![(DIGIT_ZERO + m % 10) as u8]);
        lemma_holds_split(s, p, prefix, seq![(DIGIT_ZERO + m % 10) as u8]);
        lemma_digits_value(s, p, m / 10);
        assert(digits_value(s, p, end) == digits_value(s, p, end - 1) * 10 + (s[end - 1]
            - DIGIT_ZERO) as nat);
    } else {
        assert(digits_value(s, p, end - 1) == 0);
    }
}

/// Reading the decimal digits of `m` at `p`, followed by a byte that is not a
/// digit, gives `m` and stops after them.
proof fn lemma_read_decimal(s: Seq<u8>, p: int, m: nat)
    requires
        holds_at(s, p, decimal(m)),
        p + decimal(m).len() < s.len(),
        !is_digit(s[p + decimal(m).len()]),
    ensures
        digits_end(s, p) == p + decimal(m).len(),
        digits_value(s, p, p + decimal(m).len()) == m,
{
    let d = decimal(m);
    lemma_decimal_digits(m);
    assert forall|i: int| p <= i < p + d.len() implies is_digit(#[trigger] s[i]) by {
        lemma_holds_index(s, p, d, i - p);
    }
    lemma_digits_end(s, p, p + d.len());
    lemma_digits_value(s, p, m);
}

/// The first byte of an encoding opens one of the four forms.
proof fn lemma_encode_first(n: Node)
    ensures
        encode(n).len() >= 1,
        encode(n)[0] != END_TAG,
{
    match n {
        Node::Str(b) => {
            lemma_decimal_digits(b.len());
            assert(encode(n)[0] == decimal(b.len())[0]);
        },
        _ => {},
    }
}

proof fn lemma_node_at_encode(n: Node, s: Seq<u8>, pos: int)
    requires
        encodable(n),
        holds_at(s, pos, encode(n)),
    ensures
        node_at(s, pos) == Ok::<(Node, int), crate::parse::ParseError>((n, pos + encode(n).len())),
    decreases n, 0int,
{
    let e = encode(n);
    match n {
        Node::Str(b) => {
            let d = decimal(b.len());
            lemma_holds_split(s, pos, d + seq![COLON], b);
            lemma_holds_split(s, pos, d, seq![COLON]);
            lemma_holds_index(s, pos + d.len(), seq![COLON], 0);
            lemma_read_decimal(s, pos, b.len());
            lemma_decimal_digits(b.len());
            lemma_holds_index(s, pos, d, 0);
        },
        Node::Int(i) => {
            let t = int_text(i);
            lemma_holds_split(s, pos, seq![INT_TAG] + t, seq![END_TAG]);
            lemma_holds_split(s, pos, seq![INT_TAG], t);
            lemma_holds_index(s, pos, seq![INT_TAG], 0);
            lemma_holds_index(s, pos + 1 + t.len(), seq![END_TAG], 0);
            if i < 0 {
                let d = decimal((-i) as nat);
                lemma_holds_split(s, pos + 1, seq![MINUS], d);
                lemma_holds_index(s, pos + 1, seq![MINUS], 0);
                lemma_read_decimal(s, pos + 2, (-i) as nat);
            } else {
                let d = decimal(i as nat);
                lemma_decimal_digits(i as nat);
                lemma_holds_index(s, pos + 1, d, 0);
                lemma_read_decimal(s, pos + 1, i as nat);
            }
        },
        Node::List(items) => {
            let body = encode_items(items);
            assert(e =~= seq![LIST_TAG] + (body + seq![END_TAG]));
            lemma_holds_split(s, pos, seq![LIST_TAG], body + seq![END_TAG]);
            lemma_holds_index(s, pos, seq![LIST_TAG], 0);
            lemma_list_items_encode(items, s, pos + 1);
        },
        Node::Dict(kv) => {
            let body = encode_pairs(kv);
            assert(e =~= seq![DICT_TAG] + (body + seq![END_TAG]));
            lemma_holds_split(s, pos, seq![DICT_TAG], body + seq![END_TAG]);
            lemma_holds_index(s, pos, seq![DICT_TAG], 0);
            lemma_dict_items_encode(kv, s, pos + 1);
        },
    }
}

proof fn lemma_list_items_encode(items: Seq<Node>, s: Seq<u8>, pos: int)
    requires
        forall|i: int| 0 <= i < items.len() ==> encodable(#[trigger] items[i]),
        holds_at(s, pos, encode_items(items) + seq![END_TAG]),
    ensures
        list_items(s, pos) == Ok::<(Seq<Node>, int), crate::parse::ParseError>(
            (items, pos + encode_items(items).len() + 1),
        ),
    decreases items, 1int,
{
    let body = encode_items(items);
    lemma_holds_split(s, pos, body, seq![END_TAG]);
    if items.len() == 0 {
        lemma_holds_index(s, pos, seq![END_TAG], 0);
        assert(items =~= seq![]);
    } else {
        let first = encode(items[0]);
        let rest = items.subrange(1, items.len() as int);
        assert(body + seq![END_TAG] =~= first + (encode_items(rest) + seq![END_TAG]));
        lemma_holds_split(s, pos, first, encode_items(rest) + seq![END_TAG]);
        lemma_encode_first(items[0]);
        lemma_holds_index(s, pos, first, 0);
        lemma_node_at_encode(items[0], s, pos);
        assert forall|i: int| 0 <= i < rest.len() implies encodable(#[trigger] rest[i]) by {
            assert(rest[i] == items[i + 1]);
        }
        lemma_list_items_encode(rest, s, pos + first.len());
        assert(seq![items[0]] + rest =~= items);
    }
}

proof fn lemma_dict_items_encode(kv: Seq<(Node, Node)>, s: Seq<u8>, pos: int)
    requires
        forall|i: int|
            0 <= i < kv.len() ==> (#[trigger] kv[i]).0 is Str && encodable(kv[i].0) && encodable(
                kv[i].1,
            ),
        holds_at(s, pos, encode_pairs(kv) + seq![END_TAG]),
    ensures
        dict_items(s, pos) == Ok::<(Seq<(Node, Node)>, int), crate::parse::ParseError>(
            (kv, pos + encode_pairs(kv).len() + 1),
        ),
    decreases kv, 1int,
{
    let body = encode_pairs(kv);
    lemma_holds_split(s, pos, body, seq![END_TAG]);
    if kv.len() == 0 {
        lemma_holds_index(s, pos, seq![END_TAG], 0);
        assert(kv =~= seq![]);
    } else {
        let k = encode(kv[0].0);
        let v = encode(kv[0].1);
        let rest = kv.subrange(1, kv.len() as int);
        let tail = encode_pairs(rest) + seq![END_TAG];
        assert(body + seq![END_TAG] =~= k + (v + tail));
        lemma_holds_split(s, pos, k, v + tail);
        lemma_holds_split(s, pos + k.len(), v, tail);
        lemma_encode_first(kv[0].0);
        lemma_encode_first(kv[0].1);
        lemma_holds_index(s, pos, k, 0);
        assert(kv[0] == (kv[0].0, kv[0].1));
        lemma_node_at_encode(kv[0].0, s, pos);
        lemma_node_at_encode(kv[0].1, s, pos + k.len());
        assert forall|i: int| 0 <= i < rest.len() implies (#[trigger] rest[i]).0 is Str && encodable(
            rest[i].0,
        ) && encodable(rest[i].1) by {
            assert(rest[i] == kv[i + 1]);
        }
        lemma_dict_items_encode(rest, s, pos + k.len() + v.len());
        assert(seq![(kv[0].0, kv[0].1)] + rest =~= kv);
    }
}

/// Every tree that the format can carry decodes from its encoding back to
/// itself, whatever bytes follow the encoding.
pub proof fn lemma_decode_encode(n: Node, trailing: Seq<u8>)
    requires
        encodable(n),
    ensures
        decode(encode(n) + trailing) == Ok::<Node, crate::parse::ParseError>(n),
{
    let s = encode(n) + trailing;
    assert(s.subrange(0, encode(n).len() as int) =~= encode(n));
    lemma_node_at_encode(n, s, 0);
}

proof fn lemma_node_at_encodable(s: Seq<u8>, pos: int)
    requires
        node_at(s, pos) is Ok,
    ensures
        encodable(node_at(s, pos)->Ok_0.0),
    decreases s.len() - pos, 0int,
{
    if s[pos] == LIST_TAG {
        lemma_list_items_encodable(s, pos + 1);
    } else if s[pos] == DICT_TAG {
        lemma_dict_items_encodable(s, pos + 1);
    }
}

proof fn lemma_list_items_encodable(s: Seq<u8>, pos: int)
    requires
        list_items(s, pos) is Ok,
    ensures
        forall|i: int|
            0 <= i < list_items(s, pos)->Ok_0.0.len() ==> encodable(
                #[trigger] list_items(s, pos)->Ok_0.0[i],
            ),
    decreases s.len() - pos, 1int,
{
    if 0 <= pos < s.len() && s[pos] != END_TAG {
        let (v, next) = node_at(s, pos)->Ok_0;
        lemma_node_at_encodable(s, pos);
        lemma_list_items_encodable(s, next);
        let rest = list_items(s, next)->Ok_0.0;
        let items = list_items(s, pos)->Ok_0.0;
        assert(items == seq![v] + rest);
        assert forall|i: int| 0 <= i < items.len() implies encodable(#[trigger] items[i]) by {
            if i > 0 {
                assert(items[i] == rest[i - 1]);
            }
        }
    }
}

proof fn lemma_dict_items_encodable(s: Seq<u8>, pos: int)
    requires
        dict_items(s, pos) is Ok,
    ensures
        forall|i: int|
            0 <= i < dict_items(s, pos)->Ok_0.0.len() ==> (#[trigger] dict_items(
                s,
                pos,
            )->Ok_0.0[i]).0 is Str && encodable(dict_items(s, pos)->Ok_0.0[i].0) && encodable(
                dict_items(s, pos)->Ok_0.0[i].1,
            ),
    decreases s.len() - pos, 1int,
{
    if 0 <= pos < s.len() && s[pos] != END_TAG {
        let (k, n1) = node_at(s, pos)->Ok_0;
        let (v, n2) = node_at(s, n1)->Ok_0;
        lemma_node_at_encodable(s, pos);
        lemma_node_at_encodable(s, n1);
        lemma_dict_items_encodable(s, n2);
        let rest = dict_items(s, n2)->Ok_0.0;
        let kv = dict_items(s, pos)->Ok_0.0;
        assert(kv == seq![(k, v)] + rest);
        assert forall|i: int| 0 <= i < kv.len() implies (#[trigger] kv[i]).0 is Str && encodable(
            kv[i].0,
        ) && encodable(kv[i].1) by {
            if i > 0 {
                assert(kv[i] == rest[i - 1]);
            }
        }
    }
}

/// Every decoded tree is one that the format can carry: its dictionary keys
/// are strings and its integers fit in an `i64`. With the round trip above,
/// decoding and encoding are inverse on decoded trees.
pub proof fn lemma_decoded_encodable(s: Seq<u8>)
    requires
        decode(s) is Ok,
    ensures
        encodable(decode(s)->Ok_0),
{
    lemma_node_at_encodable(s, 0);
}

} // verus!

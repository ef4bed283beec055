use crate::json::{json_of, write_as_json};
use crate::parse::{decode, try_parse_value, IParseResult, ParseError};
use crate::value::{keys_of, lossy_text, utf8_lossy, Node, Value};
use vstd::prelude::*;
use vstd::string::*;
use vstd::utf8::*;

verus! {

/// Decodes the UTF-8 bytes of `s`.
pub fn str_to_value(s: &str) -> (r: IParseResult<Value>)
    ensures
        match r {
            Ok(v) => decode(s.spec_bytes()) == Ok::<Node, ParseError>(v@),
            Err(e) => decode(s.spec_bytes()) == Err::<Node, ParseError>(e),
        },
{
    try_parse_value(s.as_bytes())
}

/// The JSON text of `value` as a `String`. Bytes of string nodes that are
/// not valid UTF-8 come out replaced.
pub fn value_to_json(value: &Value) -> (r: String)
    ensures
        r@ == lossy_text(json_of(value@)),
        valid_utf8(json_of(value@)) ==> r@ == decode_utf8(json_of(value@)),
{
    let mut bytes: Vec<u8> = Vec::new();
    write_as_json(value, &mut bytes);
    assert(bytes@ =~= json_of(value@));
    utf8_lossy(bytes.as_slice())
}

/// Decodes `s` and renders the result as JSON text. `s` must decode.
pub fn str_to_json(s: &str) -> (r: String)
    requires
        decode(s.spec_bytes()) is Ok,
    ensures
        r@ == lossy_text(json_of(decode(s.spec_bytes())->Ok_0)),
        valid_utf8(json_of(decode(s.spec_bytes())->Ok_0)) ==> r@ == decode_utf8(
            json_of(decode(s.spec_bytes())->Ok_0),
        ),
{
    match str_to_value(s) {
        Ok(value) => value_to_json(&value),
        Err(_) => String::new(),
    }
}

/// The keys of a dictionary as text, with invalid UTF-8 replaced, in stored
/// order; nothing for other nodes. Every key must be a string node.
pub fn str_keys_lossy(value: &Value) -> (r: Vec<String>)
    requires
        forall|i: int| 0 <= i < keys_of(value@).len() ==> #[trigger] keys_of(value@)[i] is Str,
    ensures
        r@.len() == keys_of(value@).len(),
        forall|i: int|
            0 <= i < r@.len() ==> #[trigger] r@[i]@ == lossy_text(keys_of(value@)[i]->Str_0),
{
    let ghost all = keys_of(value@);
    let mut out: Vec<String> = Vec::new();
    let mut it = value.keys();
    loop
        invariant
            all == keys_of(value@),
            out@.len() <= all.len(),
            it.rest() == all.subrange(out@.len() as int, all.len() as int),
            forall|i: int| 0 <= i < out@.len() ==> #[trigger] out@[i]@ == lossy_text(all[i]->Str_0),
            forall|i: int| 0 <= i < all.len() ==> #[trigger] all[i] is Str,
        decreases all.len() - out@.len(),
    {
        let ghost n = out@.len() as int;
        match it.next() {
            Some(k) => {
                assert(k@ == all[n]);
                match k.to_lossy_str() {
                    Some(text) => out.push(text),
                    None => {
                        assert(false);
                        return out;
                    },
                }
                assert(all.subrange(n, all.len() as int).drop_first() =~= all.subrange(n + 1, all.len() as int));
            },
            None => {
                assert(all.subrange(n, all.len() as int).len() == 0);
                return out;
            },
        }
    }
}

} // verus!

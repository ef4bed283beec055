use vstd::prelude::*;
use vstd::string::*;
use vstd::utf8::*;

verus! {

/// The mathematical model of a decoded node.
pub enum Node {
    Str(Seq<u8>),
    Int(int),
    List(Seq<Node>),
    Dict(Seq<(Node, Node)>),
}

/// Which of the four variants a node is.
#[derive(Debug, Copy, Clone, PartialEq, Eq, Structural)]
pub enum ValueType {
    String,
    Integer,
    List,
    Dictionary,
}

/// A decoded node: a byte string, an integer, a list, or a dictionary held
/// as an ordered sequence of key/value pairs (keys are not required to be
/// sorted or unique).
#[derive(Debug, PartialEq, Eq)]
pub enum Value {
    String(Vec<u8>),
    Integer(i64),
    List(Vec<Value>),
    Dictionary(Vec<(Value, Value)>),
}

impl View for Value {
    type V = Node;

    open spec fn view(&self) -> Node
        decreases self,
    {
        match self {
            Value::String(b) => Node::Str(b@),
            Value::Integer(i) => Node::Int(*i as int),
            Value::List(vs) => Node::List(
                Seq::new(
                    vs@.len(),
                    |i: int|
                        if 0 <= i < vs@.len() {
                            vs@[i].view()
                        } else {
                            Node::Int(0)
                        },
                ),
            ),
            Value::Dictionary(kv) => Node::Dict(
                Seq::new(
                    kv@.len(),
                    |i: int|
                        (
                            if 0 <= i < kv@.len() {
                                kv@[i].0.view()
                            } else {
                                Node::Int(0)
                            },
                            if 0 <= i < kv@.len() {
                                kv@[i].1.view()
                            } else {
                                Node::Int(0)
                            },
                        ),
                ),
            ),
        }
    }
}

/// The models of a sequence of values.
pub open spec fn views(vs: Seq<Value>) -> Seq<Node> {
    Seq::new(vs.len(), |i: int| vs[i]@)
}

/// The models of a sequence of key/value pairs.
pub open spec fn pair_views(kv: Seq<(Value, Value)>) -> Seq<(Node, Node)> {
    Seq::new(kv.len(), |i: int| (kv[i].0@, kv[i].1@))
}

/// The model of a list node is the models of its elements.
pub proof fn lemma_list_view(vs: Vec<Value>)
    ensures
        Value::List(vs)@ == Node::List(views(vs@)),
{
    assert(views(vs@) =~= Value::List(vs)@->List_0);
}

/// The model of a dictionary node is the models of its pairs.
pub proof fn lemma_dict_view(kv: Vec<(Value, Value)>)
    ensures
        Value::Dictionary(kv)@ == Node::Dict(pair_views(kv@)),
{
    assert(pair_views(kv@) =~= Value::Dictionary(kv)@->Dict_0);
}

pub open spec fn type_of(n: Node) -> ValueType {
    match n {
        Node::Str(_) => ValueType::String,
        Node::Int(_) => ValueType::Integer,
        Node::List(_) => ValueType::List,
        Node::Dict(_) => ValueType::Dictionary,
    }
}

/// Byte count of a string, 1 for an integer, element count of a list, pair
/// count of a dictionary.
pub open spec fn length(n: Node) -> nat {
    match n {
        Node::Str(b) => b.len(),
        Node::Int(_) => 1,
        Node::List(items) => items.len(),
        Node::Dict(kv) => kv.len(),
    }
}

/// The keys of a dictionary in stored order; nothing for other nodes.
pub open spec fn keys_of(n: Node) -> Seq<Node> {
    match n {
        Node::Dict(kv) => Seq::new(kv.len(), |i: int| kv[i].0),
        _ => seq![],
    }
}

/// A scalar once, the elements of a list, or the values of a dictionary in
/// stored order.
pub open spec fn values_of(n: Node) -> Seq<Node> {
    match n {
        Node::List(items) => items,
        Node::Dict(kv) => Seq::new(kv.len(), |i: int| kv[i].1),
        _ => seq![n],
    }
}

/// The pairs of a dictionary in stored order; nothing for other nodes.
pub open spec fn entries_of(n: Node) -> Seq<(Node, Node)> {
    match n {
        Node::Dict(kv) => kv,
        _ => seq![],
    }
}

/// The value of the first pair whose key is `key`.
pub open spec fn find_key(kv: Seq<(Node, Node)>, key: Node) -> Option<Node>
    decreases kv.len(),
{
    if kv.len() == 0 {
        None
    } else if kv[0].0 == key {
        Some(kv[0].1)
    } else {
        find_key(kv.drop_first(), key)
    }
}

/// Lookup by key: a string key searches a dictionary, an integer key indexes
/// a list; every other combination finds nothing.
pub open spec fn node_lookup(n: Node, key: Node) -> Option<Node> {
    match key {
        Node::Str(_) => match n {
            Node::Dict(kv) => find_key(kv, key),
            _ => None,
        },
        Node::Int(i) => match n {
            Node::List(items) => if 0 <= i < items.len() {
                Some(items[i])
            } else {
                None
            },
            _ => None,
        },
        _ => None,
    }
}

/// A found value, as its model.
pub open spec fn found(r: Option<&Value>) -> Option<Node> {
    match r {
        Some(v) => Some(v@),
        None => None,
    }
}

/// What `String::from_utf8_lossy` makes of a byte string.
pub uninterp spec fn lossy_text(b: Seq<u8>) -> Seq<char>;

/// Relies on `String::from_utf8_lossy`: the result depends on the bytes
/// alone, and valid UTF-8 is decoded as it stands.
#[verifier::external_body]
pub(crate) fn utf8_lossy(b: &[u8]) -> (r: String)
    ensures
        r@ == lossy_text(b@),
        valid_utf8(b@) ==> r@ == decode_utf8(b@),
{
    String::from_utf8_lossy(b).into_owned()
}

fn bytes_equal(a: &[u8], b: &[u8]) -> (r: bool)
    ensures
        r == (a@ == b@),
{
    if a.len() != b.len() {
        return false;
    }
    let mut i: usize = 0;
    while i < a.len()
        invariant
            i <= a@.len() == b@.len(),
            a@.subrange(0, i as int) == b@.subrange(0, i as int),
        decreases a@.len() - i,
    {
        if a[i] != b[i] {
            assert(a@[i as int] != b@[i as int]);
            return false;
        }
        assert(a@.subrange(0, i + 1) =~= a@.subrange(0, i as int).push(a@[i as int]));
        assert(b@.subrange(0, i + 1) =~= b@.subrange(0, i as int).push(b@[i as int]));
        i = i + 1;
    }
    assert(a@ =~= a@.subrange(0, i as int));
    assert(b@ =~= b@.subrange(0, i as int));
    true
}

/// Linear scan for the first pair whose key is the string `key`.
fn find_by_key<'v>(kv: &'v Vec<(Value, Value)>, key: &[u8]) -> (r: Option<&'v Value>)
    ensures
        found(r) == find_key(pair_views(kv@), Node::Str(key@)),
{
    let ghost all = pair_views(kv@);
    let mut i: usize = 0;
    assert(all.subrange(0, all.len() as int) =~= all);
    while i < kv.len()
        invariant
            i <= kv@.len(),
            all == pair_views(kv@),
            find_key(all, Node::Str(key@)) == find_key(all.subrange(i as int, all.len() as int), Node::Str(key@)),
        decreases kv@.len() - i,
    {
        let ghost rest = all.subrange(i as int, all.len() as int);
        assert(rest[0] == all[i as int]);
        assert(rest.drop_first() =~= all.subrange(i + 1, all.len() as int));
        let hit = match &kv[i].0 {
            Value::String(k) => bytes_equal(k.as_slice(), key),
            _ => false,
        };
        if hit {
            return Some(&kv[i].1);
        }
        i = i + 1;
    }
    None
}

impl Value {
    /// Lookup by a key value: a string key finds the value of the first pair
    /// with that key in a dictionary, an integer key the element at that
    /// index of a list. Anything else finds nothing: lookups report a miss
    /// and never trap.
    pub fn get<'v>(&'v self, index: &Value) -> (r: Option<&'v Value>)
        ensures
            found(r) == node_lookup(self@, index@),
    {
        match index {
            Value::String(k) => match self {
                Value::Dictionary(kv) => {
                    proof {
                        lemma_dict_view(*kv);
                    }
                    find_by_key(kv, k.as_slice())
                },
                _ => None,
            },
            Value::Integer(ind) => match self {
                Value::List(vs) => {
                    proof {
                        lemma_list_view(*vs);
                    }
                    if *ind >= 0 && (*ind as u64) < (vs.len() as u64) {
                        Some(&vs[*ind as usize])
                    } else {
                        None
                    }
                },
                _ => None,
            },
            _ => None,
        }
    }

    /// Lookup by a text key: the value of the first pair whose key holds the
    /// UTF-8 bytes of `key`; nothing for a node that is not a dictionary.
    pub fn lookup<'v>(&'v self, key: &str) -> (r: Option<&'v Value>)
        ensures
            found(r) == node_lookup(self@, Node::Str(key.spec_bytes())),
    {
        match self {
            Value::Dictionary(kv) => {
                proof {
                    lemma_dict_view(*kv);
                }
                find_by_key(kv, key.as_bytes())
            },
            _ => None,
        }
    }

    /// The element at `index` of a list; nothing when out of range or for a
    /// node that is not a list.
    pub fn at(&self, index: usize) -> (r: Option<&Value>)
        ensures
            found(r) == node_lookup(self@, Node::Int(index as int)),
    {
        match self {
            Value::List(vs) => {
                proof {
                    lemma_list_view(*vs);
                }
                if index < vs.len() {
                    Some(&vs[index])
                } else {
                    None
                }
            },
            _ => None,
        }
    }

    /// The text of a string node, with invalid UTF-8 replaced; `None` for
    /// other nodes.
    pub fn to_lossy_str(&self) -> (r: Option<String>)
        ensures
            r is Some <==> self@ is Str,
            r matches Some(s) ==> s@ == lossy_text(self@->Str_0),
    {
        match self {
            Value::String(bytes) => Some(utf8_lossy(bytes.as_slice())),
            _ => None,
        }
    }

    /// A cursor over the keys; it yields nothing for a node that is not a
    /// dictionary.
    pub fn keys(&self) -> (r: Keys<'_>)
        ensures
            r.rest() == keys_of(self@),
    {
        Keys { value: self, current_index: 0 }
    }

    /// A cursor over the values: a string or an integer yields itself once.
    pub fn values(&self) -> (r: Values<'_>)
        ensures
            r.rest() == values_of(self@),
    {
        Values { value: self, current_index: 0 }
    }

    /// A cursor over the key/value pairs; it yields nothing for a node that is
    /// not a dictionary.
    pub fn entries(&self) -> (r: KeyValues<'_>)
        ensures
            r.rest() == entries_of(self@),
    {
        KeyValues { value: self, current_index: 0 }
    }

    pub fn get_type(&self) -> (r: ValueType)
        ensures
            r == type_of(self@),
    {
        match self {
            Value::String(_) => ValueType::String,
            Value::Integer(_) => ValueType::Integer,
            Value::List(_) => ValueType::List,
            Value::Dictionary(_) => ValueType::Dictionary,
        }
    }

    pub fn len(&self) -> (r: usize)
        ensures
            r == length(self@),
    {
        match self {
            Value::String(s) => s.len(),
            Value::Integer(_) => 1,
            Value::List(vs) => vs.len(),
            Value::Dictionary(kv) => kv.len(),
        }
    }

    #[must_use]
    pub fn is_empty(&self) -> (r: bool)
        ensures
            r == (length(self@) == 0),
    {
        self.len() == 0
    }
}

/// The part of `s` from `i` on; nothing once `i` is past its end.
pub open spec fn rest_from<T>(s: Seq<T>, i: int) -> Seq<T> {
    if i < s.len() {
        s.subrange(i, s.len() as int)
    } else {
        seq![]
    }
}

/// A cursor over the keys of a dictionary.
pub struct Keys<'v> {
    value: &'v Value,
    current_index: usize,
}

impl<'v> Keys<'v> {
    /// The keys not yet handed out.
    pub closed spec fn rest(&self) -> Seq<Node> {
        rest_from(keys_of(self.value@), self.current_index as int)
    }

    /// The next key, or `None` once all were handed out.
    pub fn next(&mut self) -> (r: Option<&'v Value>)
        ensures
            match r {
                Some(k) => old(self).rest().len() > 0 && k@ == old(self).rest()[0]
                    && final(self).rest() == old(self).rest().drop_first(),
                None => old(self).rest().len() == 0 && final(self).rest() == old(self).rest(),
            },
    {
        let value: &'v Value = self.value;
        match value {
            Value::Dictionary(kv) => {
                proof {
                    lemma_dict_view(*kv);
                }
                if self.current_index < kv.len() {
                    let ghost i = self.current_index as int;
                    let res = &kv[self.current_index].0;
                    self.current_index = self.current_index + 1;
                    proof {
                        let ks = keys_of(value@);
                        assert(ks.subrange(i, ks.len() as int).drop_first() =~= rest_from(ks, i + 1));
                    }
                    Some(res)
                } else {
                    None
                }
            },
            _ => None,
        }
    }
}

/// A cursor over the values of a node: a scalar once, the elements of a
/// list, or the values of a dictionary.
pub struct Values<'v> {
    value: &'v Value,
    current_index: usize,
}

impl<'v> Values<'v> {
    /// The values not yet handed out.
    pub closed spec fn rest(&self) -> Seq<Node> {
        rest_from(values_of(self.value@), self.current_index as int)
    }

    /// The next value, or `None` once all were handed out.
    pub fn next(&mut self) -> (r: Option<&'v Value>)
        ensures
            match r {
                Some(k) => old(self).rest().len() > 0 && k@ == old(self).rest()[0]
                    && final(self).rest() == old(self).rest().drop_first(),
                None => old(self).rest().len() == 0 && final(self).rest() == old(self).rest(),
            },
    {
        let value: &'v Value = self.value;
        let ghost vs = values_of(value@);
        let ghost i = self.current_index as int;
        match value {
            Value::List(vals) => {
                proof {
                    lemma_list_view(*vals);
                }
                if self.current_index < vals.len() {
                    let res = &vals[self.current_index];
                    self.current_index = self.current_index + 1;
                    proof {
                        assert(vs.subrange(i, vs.len() as int).drop_first() =~= rest_from(vs, i + 1));
                    }
                    Some(res)
                } else {
                    None
                }
            },
            Value::Dictionary(kv) => {
                proof {
                    lemma_dict_view(*kv);
                }
                if self.current_index < kv.len() {
                    let res = &kv[self.current_index].1;
                    self.current_index = self.current_index + 1;
                    proof {
                        assert(vs.subrange(i, vs.len() as int).drop_first() =~= rest_from(vs, i + 1));
                    }
                    Some(res)
                } else {
                    None
                }
            },
            _ => {
                if self.current_index == 0 {
                    self.current_index = 1;
                    proof {
                        assert(vs.subrange(i, vs.len() as int).drop_first() =~= rest_from(vs, i + 1));
                    }
                    Some(value)
                } else {
                    None
                }
            },
        }
    }
}

/// A cursor over the key/value pairs of a dictionary.
pub struct KeyValues<'v> {
    value: &'v Value,
    current_index: usize,
}

impl<'v> KeyValues<'v> {
    /// The pairs not yet handed out.
    pub closed spec fn rest(&self) -> Seq<(Node, Node)> {
        rest_from(entries_of(self.value@), self.current_index as int)
    }

    /// The next pair, or `None` once all were handed out.
    pub fn next(&mut self) -> (r: Option<(&'v Value, &'v Value)>)
        ensures
            match r {
                Some((k, v)) => old(self).rest().len() > 0 && (k@, v@) == old(self).rest()[0]
                    && final(self).rest() == old(self).rest().drop_first(),
                None => old(self).rest().len() == 0 && final(self).rest() == old(self).rest(),
            },
    {
        let value: &'v Value = self.value;
        match value {
            Value::Dictionary(kv) => {
                proof {
                    lemma_dict_view(*kv);
                }
                if self.current_index < kv.len() {
                    let ghost i = self.current_index as int;
                    let (k, v) = &kv[self.current_index];
                    self.current_index = self.current_index + 1;
                    proof {
                        let es = entries_of(value@);
                        assert(es.subrange(i, es.len() as int).drop_first() =~= rest_from(es, i + 1));
                    }
                    Some((k, v))
                } else {
                    None
                }
            },
            _ => None,
        }
    }
}

/// A key held by exactly one pair of a dictionary finds that pair's value.
pub proof fn lemma_lookup_single_key(kv: Seq<(Node, Node)>, key: Seq<u8>, i: int)
    requires
        0 <= i < kv.len(),
        kv[i].0 == Node::Str(key),
        forall|j: int| 0 <= j < kv.len() && j != i ==> #[trigger] kv[j].0 != Node::Str(key),
    ensures
        node_lookup(Node::Dict(kv), Node::Str(key)) == Some(kv[i].1),
    decreases kv.len(),
{
    if i > 0 {
        let rest = kv.drop_first();
        assert(kv[0].0 != Node::Str(key));
        assert forall|j: int| 0 <= j < rest.len() && j != i - 1 implies #[trigger] rest[j].0 != Node::Str(
            key,
        ) by {
            assert(rest[j] == kv[j + 1]);
        }
        lemma_lookup_single_key(rest, key, i - 1);
    }
}

/// A key held by no pair of a dictionary finds nothing.
pub proof fn lemma_lookup_absent_key(kv: Seq<(Node, Node)>, key: Seq<u8>)
    requires
        forall|j: int| 0 <= j < kv.len() ==> #[trigger] kv[j].0 != Node::Str(key),
    ensures
        node_lookup(Node::Dict(kv), Node::Str(key)) is None,
    decreases kv.len(),
{
    if kv.len() > 0 {
        let rest = kv.drop_first();
        assert forall|j: int| 0 <= j < rest.len() implies #[trigger] rest[j].0 != Node::Str(key) by {
            assert(rest[j] == kv[j + 1]);
        }
        lemma_lookup_absent_key(rest, key);
    }
}

/// The values of a node number its length, for every node but a string
/// whose length is not one (a string yields itself once, whatever its length).
pub proof fn lemma_values_count(n: Node)
    requires
        n is Str ==> length(n) == 1,
    ensures
        values_of(n).len() == length(n),
{
}

/// The values of a string or an integer are the node itself, once.
pub proof fn lemma_scalar_values(n: Node)
    requires
        n is Str || n is Int,
    ensures
        values_of(n) == seq![n],
{
}

/// Conversion of native values into a tree, for building values by hand.
pub trait IntoValue {
    /// The model of the value that `into_value` builds.
    spec fn value_model(&self) -> Node;

    fn into_value(&self) -> (r: Value)
        ensures
            r@ == self.value_model(),
    ;
}

impl IntoValue for i64 {
    open spec fn value_model(&self) -> Node {
        Node::Int(*self as int)
    }

    fn into_value(&self) -> (r: Value) {
        Value::Integer(*self)
    }
}

impl IntoValue for str {
    /// A string node holding the UTF-8 bytes of the text.
    open spec fn value_model(&self) -> Node {
        Node::Str(self.spec_bytes())
    }

    fn into_value(&self) -> (r: Value) {
        let bytes = vstd::slice::slice_to_vec(self.as_bytes());
        Value::String(bytes)
    }
}

impl<'k, T: IntoValue> IntoValue for [(&'k str, T)] {
    /// A dictionary with the pairs in the order given; keys are neither
    /// sorted nor deduplicated.
    open spec fn value_model(&self) -> Node {
        Node::Dict(
            Seq::new(
                self@.len(),
                |i: int| (Node::Str(self@[i].0.spec_bytes()), self@[i].1.value_model()),
            ),
        )
    }

    fn into_value(&self) -> (r: Value) {
        let mut kv: Vec<(Value, Value)> = Vec::new();
        let mut i: usize = 0;
        while i < self.len()
            invariant
                i <= self@.len(),
                kv@.len() == i,
                forall|j: int|
                    0 <= j < i ==> (#[trigger] kv@[j]).0@ == Node::Str(self@[j].0.spec_bytes())
                        && kv@[j].1@ == self@[j].1.value_model(),
            decreases self@.len() - i,
        {
            let (k, v) = &self[i];
            let key_str: &str = *k;
            let value: Value = v.into_value();
            kv.push((key_str.into_value(), value));
            i = i + 1;
        }
        proof {
            lemma_dict_view(kv);
            assert(pair_views(kv@) =~= self.value_model()->Dict_0);
        }
        Value::Dictionary(kv)
    }
}

impl<T: IntoValue> IntoValue for [T] {
    /// A list of the converted elements, in order.
    open spec fn value_model(&self) -> Node {
        Node::List(Seq::new(self@.len(), |i: int| self@[i].value_model()))
    }

    fn into_value(&self) -> (r: Value) {
        let mut vals: Vec<Value> = Vec::new();
        let mut i: usize = 0;
        while i < self.len()
            invariant
                i <= self@.len(),
                vals@.len() == i,
                forall|j: int| 0 <= j < i ==> (#[trigger] vals@[j])@ == self@[j].value_model(),
            decreases self@.len() - i,
        {
            vals.push(self[i].into_value());
            i = i + 1;
        }
        proof {
            lemma_list_view(vals);
            assert(views(vals@) =~= self.value_model()->List_0);
        }
        Value::List(vals)
    }
}

} // verus!

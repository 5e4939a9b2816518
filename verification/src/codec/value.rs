//! The value model and the total order of its keys.

use vstd::prelude::*;
use vstd::slice::*;
use vstd::string::*;
use vstd::utf8::*;
use super::number::{
    check_float_key, compare_floats, compare_int_float, float_key, order_of, scaled, scaled_int,
    Float, Order,
};
use super::{CodecError, ErrorView};

verus! {

/// A value of the model. Floats are finite by the constructors that
/// matter (`Table::insert`, the decoders); a `Value::Float` built by hand
/// is checked again when it is encoded.
#[derive(Debug, PartialEq, Eq)]
pub enum Value {
    Nil,
    Bool(bool),
    Int(i64),
    Float(Float),
    Str(Vec<u8>),
    Table(Table),
    Blob(Vec<u8>),
}

/// A table key: boolean, integer, float or string, in that order.
#[derive(Debug, Clone, PartialEq, Eq)]
pub enum Key {
    Bool(bool),
    Int(i64),
    Float(Float),
    Str(Vec<u8>),
}

/// A table: keys in the total order, values never nil.
#[derive(Debug, PartialEq, Eq)]
pub struct Table {
    pub entries: Vec<(Key, Value)>,
}

/// A value as a tree of plain values.
pub enum Node {
    Nil,
    Bool(bool),
    Int(i64),
    Float(Float),
    Str(Seq<u8>),
    Table(Seq<(KeyView, Node)>),
    Blob(Seq<u8>),
}

/// A key as plain values.
pub enum KeyView {
    Bool(bool),
    Int(i64),
    Float(Float),
    Str(Seq<u8>),
}

impl View for Key {
    type V = KeyView;

    open spec fn view(&self) -> KeyView {
        match self {
            Key::Bool(b) => KeyView::Bool(*b),
            Key::Int(i) => KeyView::Int(*i),
            Key::Float(f) => KeyView::Float(*f),
            Key::Str(s) => KeyView::Str(s@),
        }
    }
}

pub open spec fn node_of(v: Value) -> Node
    decreases v, 0nat,
{
    match v {
        Value::Nil => Node::Nil,
        Value::Bool(b) => Node::Bool(b),
        Value::Int(i) => Node::Int(i),
        Value::Float(f) => Node::Float(f),
        Value::Str(s) => Node::Str(s@),
        Value::Table(t) => Node::Table(nodes_of(t.entries@, t.entries@.len())),
        Value::Blob(b) => Node::Blob(b@),
    }
}

/// The first `n` entries.
pub open spec fn nodes_of(e: Seq<(Key, Value)>, n: nat) -> Seq<(KeyView, Node)>
    decreases e, n,
{
    if n == 0 || n > e.len() {
        seq![]
    } else {
        nodes_of(e, (n - 1) as nat).push((e[n - 1].0@, node_of(e[n - 1].1)))
    }
}

pub proof fn lemma_nodes_of(e: Seq<(Key, Value)>, n: nat)
    requires
        n <= e.len(),
    ensures
        nodes_of(e, n).len() == n,
        forall|i: int|
            0 <= i < n ==> #[trigger] nodes_of(e, n)[i] == (e[i].0@, node_of(e[i].1)),
    decreases n,
{
    if n > 0 {
        lemma_nodes_of(e, (n - 1) as nat);
    }
}

/// The entries of a list, one by one.
pub open spec fn entry_nodes(e: Seq<(Key, Value)>) -> Seq<(KeyView, Node)> {
    nodes_of(e, e.len())
}

impl View for Value {
    type V = Node;

    open spec fn view(&self) -> Node {
        node_of(*self)
    }
}

impl View for Table {
    type V = Seq<(KeyView, Node)>;

    open spec fn view(&self) -> Seq<(KeyView, Node)> {
        entry_nodes(self.entries@)
    }
}

// ----- the order of keys ----------------------------------------------------

/// Byte strings compare byte by byte; a prefix comes first.
pub open spec fn bytes_order(a: Seq<u8>, b: Seq<u8>) -> Order
    decreases a.len(),
{
    if a.len() == 0 {
        if b.len() == 0 {
            Order::Equal
        } else {
            Order::Less
        }
    } else if b.len() == 0 {
        Order::Greater
    } else if a[0] == b[0] {
        bytes_order(a.skip(1), b.skip(1))
    } else {
        order_of(a[0] as int, b[0] as int)
    }
}

/// Booleans, then numbers, then strings.
pub open spec fn rank(k: KeyView) -> int {
    match k {
        KeyView::Bool(_) => 0,
        KeyView::Int(_) => 1,
        KeyView::Float(_) => 1,
        KeyView::Str(_) => 2,
    }
}

/// The total order of keys: false before true; numbers by value, an
/// integer before an equal float; strings by bytes.
#[verifier::opaque]
pub open spec fn key_order(a: KeyView, b: KeyView) -> Order {
    match (a, b) {
        (KeyView::Bool(x), KeyView::Bool(y)) => if x == y {
            Order::Equal
        } else if y {
            Order::Less
        } else {
            Order::Greater
        },
        (KeyView::Int(x), KeyView::Int(y)) => order_of(x as int, y as int),
        (KeyView::Int(x), KeyView::Float(y)) => if scaled_int(x as int) <= scaled(y.bits) {
            Order::Less
        } else {
            Order::Greater
        },
        (KeyView::Float(x), KeyView::Int(y)) => if scaled_int(y as int) <= scaled(x.bits) {
            Order::Greater
        } else {
            Order::Less
        },
        (KeyView::Float(x), KeyView::Float(y)) => order_of(scaled(x.bits), scaled(y.bits)),
        (KeyView::Str(x), KeyView::Str(y)) => bytes_order(x, y),
        _ => order_of(rank(a), rank(b)),
    }
}

pub open spec fn reversed(o: Order) -> Order {
    match o {
        Order::Less => Order::Greater,
        Order::Equal => Order::Equal,
        Order::Greater => Order::Less,
    }
}

proof fn lemma_bytes_reverse(a: Seq<u8>, b: Seq<u8>)
    ensures
        bytes_order(b, a) == reversed(bytes_order(a, b)),
        bytes_order(a, b) == Order::Equal <==> a == b,
    decreases a.len(),
{
    if a.len() > 0 && b.len() > 0 && a[0] == b[0] {
        lemma_bytes_reverse(a.skip(1), b.skip(1));
        if bytes_order(a, b) == Order::Equal {
            assert(a =~= seq![a[0]] + a.skip(1));
            assert(b =~= seq![b[0]] + b.skip(1));
        }
    } else if a.len() == 0 && b.len() == 0 {
        assert(a =~= b);
    }
}

proof fn lemma_bytes_transitive(a: Seq<u8>, b: Seq<u8>, c: Seq<u8>)
    requires
        bytes_order(a, b) == Order::Less,
        bytes_order(b, c) == Order::Less,
    ensures
        bytes_order(a, c) == Order::Less,
    decreases a.len(),
{
    if a.len() > 0 && b.len() > 0 && c.len() > 0 && a[0] == b[0] && b[0] == c[0] {
        lemma_bytes_transitive(a.skip(1), b.skip(1), c.skip(1));
    }
}

proof fn lemma_scaled_int(x: int, y: int)
    ensures
        x < y ==> scaled_int(x) < scaled_int(y),
{
    vstd::arithmetic::power2::lemma_pow2_pos(1074);
    if x < y {
        vstd::arithmetic::mul::lemma_mul_strict_inequality(
            x,
            y,
            vstd::arithmetic::power2::pow2(1074) as int,
        );
    }
}

/// Any two keys compare one way, and the other way round the reverse.
pub proof fn law_key_order_is_total(a: KeyView, b: KeyView)
    ensures
        key_order(b, a) == reversed(key_order(a, b)),
        key_order(a, a) == Order::Equal,
{
    reveal(key_order);
    match (a, b) {
        (KeyView::Str(x), KeyView::Str(y)) => {
            lemma_bytes_reverse(x, y);
            lemma_bytes_reverse(x, x);
        },
        (KeyView::Str(x), _) => {
            lemma_bytes_reverse(x, x);
        },
        _ => {},
    }
}

/// The order of keys is transitive.
pub proof fn law_key_order_is_transitive(a: KeyView, b: KeyView, c: KeyView)
    requires
        key_order(a, b) == Order::Less,
        key_order(b, c) == Order::Less,
    ensures
        key_order(a, c) == Order::Less,
{
    reveal(key_order);
    match (a, b, c) {
        (KeyView::Str(x), KeyView::Str(y), KeyView::Str(z)) => {
            lemma_bytes_transitive(x, y, z);
        },
        (KeyView::Int(x), KeyView::Int(y), _) => {
            lemma_scaled_int(x as int, y as int);
        },
        (_, KeyView::Int(y), KeyView::Int(z)) => {
            lemma_scaled_int(y as int, z as int);
        },
        (KeyView::Int(x), KeyView::Float(_), KeyView::Int(z)) => {
            lemma_scaled_int(z as int, x as int);
        },
        _ => {},
    }
}

/// A key equal to one that comes before another comes before it too.
pub proof fn lemma_equal_less(a: KeyView, b: KeyView, c: KeyView)
    requires
        key_order(a, b) == Order::Equal,
        key_order(b, c) == Order::Less,
    ensures
        key_order(a, c) == Order::Less,
{
    reveal(key_order);
    match (a, b) {
        (KeyView::Str(x), KeyView::Str(y)) => {
            lemma_bytes_reverse(x, y);
        },
        _ => {},
    }
}

pub fn compare_bytes(a: &[u8], b: &[u8]) -> (o: Order)
    ensures
        o == bytes_order(a@, b@),
{
    let mut i: usize = 0;
    assert(a@.skip(0) =~= a@);
    assert(b@.skip(0) =~= b@);
    while i < a.len() && i < b.len()
        invariant
            i <= a@.len(),
            i <= b@.len(),
            bytes_order(a@, b@) == bytes_order(a@.skip(i as int), b@.skip(i as int)),
        decreases a.len() - i,
    {
        assert(a@.skip(i as int).skip(1) =~= a@.skip(i + 1));
        assert(b@.skip(i as int).skip(1) =~= b@.skip(i + 1));
        if a[i] < b[i] {
            return Order::Less;
        }
        if a[i] > b[i] {
            return Order::Greater;
        }
        i += 1;
    }
    if a.len() < b.len() {
        Order::Less
    } else if a.len() > b.len() {
        Order::Greater
    } else {
        Order::Equal
    }
}

impl Key {
    /// How two keys compare.
    pub fn compare(&self, other: &Key) -> (o: Order)
        ensures
            o == key_order(self@, other@),
    {
        proof {
            reveal(key_order);
        }
        match (self, other) {
            (Key::Bool(a), Key::Bool(b)) => {
                if *a == *b {
                    Order::Equal
                } else if *b {
                    Order::Less
                } else {
                    Order::Greater
                }
            },
            (Key::Int(a), Key::Int(b)) => {
                if *a < *b {
                    Order::Less
                } else if *a == *b {
                    Order::Equal
                } else {
                    Order::Greater
                }
            },
            (Key::Int(a), Key::Float(b)) => match compare_int_float(*a, b) {
                Order::Greater => Order::Greater,
                _ => Order::Less,
            },
            (Key::Float(a), Key::Int(b)) => match compare_int_float(*b, a) {
                Order::Greater => Order::Less,
                _ => Order::Greater,
            },
            (Key::Float(a), Key::Float(b)) => compare_floats(a, b),
            (Key::Str(a), Key::Str(b)) => compare_bytes(a.as_slice(), b.as_slice()),
            _ => {
                let (a, b) = (self.rank(), other.rank());
                if a < b {
                    Order::Less
                } else if a == b {
                    Order::Equal
                } else {
                    Order::Greater
                }
            },
        }
    }

    fn rank(&self) -> (r: u8)
        ensures
            r == rank(self@),
    {
        match self {
            Key::Bool(_) => 0,
            Key::Int(_) => 1,
            Key::Float(_) => 1,
            Key::Str(_) => 2,
        }
    }

    pub fn str(s: &str) -> (k: Key)
        ensures
            k@ == KeyView::Str(encode_utf8(s@)),
    {
        Key::Str(slice_to_vec(s.as_bytes()))
    }

    /// A float key: finite and not an integer value.
    pub fn float(f: Float) -> (r: Result<Key, CodecError>)
        ensures
            match (r, float_key(f.bits)) {
                (Ok(k), None) => k@ == KeyView::Float(f),
                (Err(e), Some(v)) => e@ == v,
                _ => false,
            },
    {
        match check_float_key(&f) {
            Ok(_) => Ok(Key::Float(f)),
            Err(e) => Err(e),
        }
    }

    /// The key a value makes, applying the canonical key rules.
    pub fn from_value(v: Value) -> (r: Result<Key, CodecError>)
        ensures
            match (r, key_of(v@)) {
                (Ok(k), Ok(w)) => k@ == w,
                (Err(e), Err(w)) => e@ == w,
                _ => false,
            },
    {
        match v {
            Value::Bool(b) => Ok(Key::Bool(b)),
            Value::Int(i) => Ok(Key::Int(i)),
            Value::Float(f) => Key::float(f),
            Value::Str(s) => Ok(Key::Str(s)),
            other => {
                let mut s = other.kind_name().to_owned();
                s.append(" keys are not allowed");
                Err(CodecError { code: CodecError::KEY, message: s })
            },
        }
    }

    pub fn into_value(self) -> (v: Value)
        ensures
            v@ == key_node(self@),
    {
        match self {
            Key::Bool(b) => Value::Bool(b),
            Key::Int(i) => Value::Int(i),
            Key::Float(f) => Value::Float(f),
            Key::Str(s) => Value::Str(s),
        }
    }
}

/// The value a key stands for.
pub open spec fn key_node(k: KeyView) -> Node {
    match k {
        KeyView::Bool(b) => Node::Bool(b),
        KeyView::Int(i) => Node::Int(i),
        KeyView::Float(f) => Node::Float(f),
        KeyView::Str(s) => Node::Str(s),
    }
}

/// What a value's kind is called.
pub open spec fn kind_of(n: Node) -> Seq<char> {
    match n {
        Node::Nil => "nil"@,
        Node::Bool(_) => "boolean"@,
        Node::Int(_) => "integer"@,
        Node::Float(_) => "float"@,
        Node::Str(_) => "string"@,
        Node::Table(_) => "table"@,
        Node::Blob(_) => "blob"@,
    }
}

/// The key a value makes, or why it makes none.
pub open spec fn key_of(n: Node) -> Result<KeyView, ErrorView> {
    match n {
        Node::Bool(b) => Ok(KeyView::Bool(b)),
        Node::Int(i) => Ok(KeyView::Int(i)),
        Node::Float(f) => match float_key(f.bits) {
            None => Ok(KeyView::Float(f)),
            Some(e) => Err(e),
        },
        Node::Str(s) => Ok(KeyView::Str(s)),
        _ => Err(
            ErrorView { code: "codec_key"@, message: kind_of(n) + " keys are not allowed"@ },
        ),
    }
}

impl Value {
    pub fn str(s: &str) -> (v: Value)
        ensures
            v@ == Node::Str(encode_utf8(s@)),
    {
        Value::Str(slice_to_vec(s.as_bytes()))
    }

    pub fn kind_name(&self) -> (s: &'static str)
        ensures
            s@ == kind_of(self@),
    {
        match self {
            Value::Nil => "nil",
            Value::Bool(_) => "boolean",
            Value::Int(_) => "integer",
            Value::Float(_) => "float",
            Value::Str(_) => "string",
            Value::Table(_) => "table",
            Value::Blob(_) => "blob",
        }
    }
}

// ----- tables ---------------------------------------------------------------

/// Keys in the total order, none twice.
pub open spec fn sorted(t: Seq<(KeyView, Node)>) -> bool {
    forall|i: int, j: int|
        0 <= i < j < t.len() ==> key_order((#[trigger] t[i]).0, (#[trigger] t[j]).0) == Order::Less
}

/// How many entries come before a key.
pub open spec fn place(t: Seq<(KeyView, Node)>, k: KeyView) -> int
    decreases t.len(),
{
    if t.len() == 0 || key_order(t[0].0, k) != Order::Less {
        0
    } else {
        1 + place(t.skip(1), k)
    }
}

/// Whether a table has a value under a key.
pub open spec fn has_key(t: Seq<(KeyView, Node)>, k: KeyView) -> bool {
    place(t, k) < t.len() && key_order(t[place(t, k)].0, k) == Order::Equal
}

/// A table with a value under a key, in place of the one that was there.
pub open spec fn inserted(t: Seq<(KeyView, Node)>, k: KeyView, v: Node) -> Seq<(KeyView, Node)> {
    let p = place(t, k);
    if has_key(t, k) {
        t.update(p, (t[p].0, v))
    } else {
        t.insert(p, (k, v))
    }
}

pub proof fn lemma_place(t: Seq<(KeyView, Node)>, k: KeyView, p: int)
    requires
        0 <= p <= t.len(),
        forall|i: int| 0 <= i < p ==> key_order((#[trigger] t[i]).0, k) == Order::Less,
        p < t.len() ==> key_order(t[p].0, k) != Order::Less,
    ensures
        place(t, k) == p,
    decreases p,
{
    if p > 0 {
        let r = t.skip(1);
        assert(t[0].0 == t[0].0);
        assert forall|i: int| 0 <= i < p - 1 implies key_order((#[trigger] r[i]).0, k)
            == Order::Less by {
            assert(r[i] == t[i + 1]);
        }
        lemma_place(r, k, p - 1);
    }
}

pub proof fn lemma_place_bounds(t: Seq<(KeyView, Node)>, k: KeyView)
    ensures
        0 <= place(t, k) <= t.len(),
        forall|i: int|
            0 <= i < place(t, k) ==> key_order((#[trigger] t[i]).0, k) == Order::Less,
        place(t, k) < t.len() ==> key_order(t[place(t, k)].0, k) != Order::Less,
    decreases t.len(),
{
    if t.len() == 0 || key_order(t[0].0, k) != Order::Less {
    } else {
        let r = t.skip(1);
        lemma_place_bounds(r, k);
        assert forall|i: int| 0 <= i < place(t, k) implies key_order((#[trigger] t[i]).0, k)
            == Order::Less by {
            if i > 0 {
                assert(r[i - 1] == t[i]);
            }
        }
    }
}

/// Inserting keeps a table sorted: keys stay in the total order and none
/// occurs twice.
pub proof fn law_insert_keeps_the_order(t: Seq<(KeyView, Node)>, k: KeyView, v: Node)
    requires
        sorted(t),
    ensures
        sorted(inserted(t, k, v)),
{
    let p = place(t, k);
    let u = inserted(t, k, v);
    lemma_place_bounds(t, k);
    if has_key(t, k) {
        assert forall|i: int, j: int| 0 <= i < j < u.len() implies key_order(
            (#[trigger] u[i]).0,
            (#[trigger] u[j]).0,
        ) == Order::Less by {
            assert(u[i].0 == t[i].0 && u[j].0 == t[j].0);
        }
    } else {
        assert forall|i: int, j: int| 0 <= i < j < u.len() implies key_order(
            (#[trigger] u[i]).0,
            (#[trigger] u[j]).0,
        ) == Order::Less by {
            if j < p {
                assert(u[i] == t[i] && u[j] == t[j]);
            } else if j == p {
                assert(u[i] == t[i] && u[j] == (k, v));
            } else if i < p {
                assert(u[i] == t[i] && u[j] == t[j - 1]);
            } else if i == p {
                assert(u[i] == (k, v) && u[j] == t[j - 1]);
                law_key_order_is_total(t[p].0, k);
                if j - 1 > p {
                    law_key_order_is_transitive(k, t[p].0, t[j - 1].0);
                }
            } else {
                assert(u[i] == t[i - 1] && u[j] == t[j - 1]);
            }
        }
    }
}

/// A table gives back what was put under a key, and what other keys held
/// stays.
#[verifier::spinoff_prover]
#[verifier::rlimit(50)]
pub proof fn law_get_gives_back_insert(
    t: Seq<(KeyView, Node)>,
    k: KeyView,
    v: Node,
    other: KeyView,
)
    requires
        sorted(t),
    ensures
        has_key(inserted(t, k, v), k),
        inserted(t, k, v)[place(inserted(t, k, v), k)].1 == v,
        key_order(other, k) != Order::Equal ==> (has_key(inserted(t, k, v), other) <==> has_key(
            t,
            other,
        )),
        key_order(other, k) != Order::Equal && has_key(t, other) ==> inserted(t, k, v)[place(
            inserted(t, k, v),
            other,
        )].1 == t[place(t, other)].1,
{
    let p = place(t, k);
    let u = inserted(t, k, v);
    lemma_place_bounds(t, k);
    law_insert_keeps_the_order(t, k, v);
    law_key_order_is_total(k, k);
    assert forall|i: int| 0 <= i < p implies key_order((#[trigger] u[i]).0, k) == Order::Less by {
        assert(u[i] == t[i]);
    }
    lemma_place(u, k, p);
    if key_order(other, k) != Order::Equal {
        let q = place(t, other);
        lemma_place_bounds(t, other);
        law_key_order_is_total(other, k);
        if has_key(t, k) {
            assert forall|i: int| 0 <= i < q implies key_order((#[trigger] u[i]).0, other)
                == Order::Less by {
                assert(u[i].0 == t[i].0);
            }
            if q < t.len() {
                assert(u[q].0 == t[q].0);
            }
            lemma_place(u, other, q);
            if q == p && has_key(t, other) {
                law_key_order_is_total(t[p].0, other);
                lemma_equal_equal(other, t[p].0, k);
            }
        } else if key_order(k, other) == Order::Less {
            // The new entry comes before `other`'s place.
            if q < p {
                if q < t.len() {
                    law_key_order_is_total(t[q].0, other);
                    if key_order(t[q].0, other) == Order::Equal {
                        law_key_order_is_total(other, k);
                        lemma_equal_less_left(other, t[q].0, k);
                    } else {
                        law_key_order_is_transitive(other, t[q].0, k);
                    }
                }
            }
            assert(p <= q);
            assert forall|i: int| 0 <= i < q + 1 implies key_order((#[trigger] u[i]).0, other)
                == Order::Less by {
                if i < p {
                    assert(u[i] == t[i]);
                } else if i > p {
                    assert(u[i] == t[i - 1]);
                }
            }
            if q < t.len() {
                assert(u[q + 1] == t[q]);
            }
            lemma_place(u, other, q + 1);
        } else {
            assert(key_order(other, k) == Order::Less);
            if q > p {
                assert(t[p].0 == t[p].0);
                law_key_order_is_transitive(t[p].0, other, k);
            }
            assert(q <= p);
            assert forall|i: int| 0 <= i < q implies key_order((#[trigger] u[i]).0, other)
                == Order::Less by {
                assert(u[i] == t[i]);
            }
            if q < p {
                assert(u[q] == t[q]);
            } else {
                assert(u[q] == (k, v));
            }
            lemma_place(u, other, q);
            if has_key(t, other) && q == p {
                law_key_order_is_total(t[p].0, other);
                lemma_equal_less(t[p].0, other, k);
            }
        }
    }
}

proof fn lemma_equal_equal(a: KeyView, b: KeyView, c: KeyView)
    requires
        key_order(a, b) == Order::Equal,
        key_order(b, c) == Order::Equal,
    ensures
        key_order(a, c) == Order::Equal,
{
    reveal(key_order);
    match (a, b, c) {
        (KeyView::Str(x), KeyView::Str(y), KeyView::Str(z)) => {
            lemma_bytes_reverse(x, y);
            lemma_bytes_reverse(y, z);
            lemma_bytes_reverse(x, z);
        },
        _ => {},
    }
}

proof fn lemma_equal_less_left(a: KeyView, b: KeyView, c: KeyView)
    requires
        key_order(b, a) == Order::Equal,
        key_order(b, c) == Order::Less,
    ensures
        key_order(a, c) == Order::Less,
{
    law_key_order_is_total(b, a);
    lemma_equal_less(a, b, c);
}

pub open spec fn nil_refusal() -> ErrorView {
    ErrorView { code: "codec_unsupported"@, message: "nil is not a table value"@ }
}

impl Default for Table {
    fn default() -> (t: Table)
        ensures
            t@ == Seq::<(KeyView, Node)>::empty(),
            sorted(t@),
    {
        Table::new()
    }
}

impl Table {
    pub fn new() -> (t: Table)
        ensures
            t@ == Seq::<(KeyView, Node)>::empty(),
            sorted(t@),
    {
        Table { entries: Vec::new() }
    }

    /// How many entries come before a key.
    fn search(&self, key: &Key) -> (p: usize)
        requires
            sorted(self@),
        ensures
            p == place(self@, key@),
            p <= self.entries@.len(),
    {
        let ghost t = self@;
        let ghost k = key@;
        let mut lo: usize = 0;
        let mut hi: usize = self.entries.len();
        proof {
            lemma_nodes_of(self.entries@, self.entries@.len());
        }
        while lo < hi
            invariant
                lo <= hi <= self.entries@.len(),
                t == self@,
                k == key@,
                sorted(t),
                t.len() == self.entries@.len(),
                forall|i: int|
                    0 <= i < t.len() ==> (#[trigger] t[i]).0 == self.entries@[i].0@,
                forall|i: int| 0 <= i < lo ==> key_order((#[trigger] t[i]).0, k) == Order::Less,
                forall|i: int|
                    hi <= i < t.len() ==> key_order((#[trigger] t[i]).0, k) != Order::Less,
            decreases hi - lo,
        {
            let mid: usize = lo + (hi - lo) / 2;
            assert(t[mid as int].0 == self.entries@[mid as int].0@);
            match self.entries[mid].0.compare(key) {
                Order::Less => {
                    assert forall|i: int| 0 <= i < mid + 1 implies key_order(
                        (#[trigger] t[i]).0,
                        k,
                    ) == Order::Less by {
                        if i < mid {
                            law_key_order_is_transitive(t[i].0, t[mid as int].0, k);
                        }
                    }
                    lo = mid + 1;
                },
                _ => {
                    assert forall|i: int| mid <= i < t.len() implies key_order(
                        (#[trigger] t[i]).0,
                        k,
                    ) != Order::Less by {
                        if i > mid && key_order(t[i].0, k) == Order::Less {
                            law_key_order_is_transitive(t[mid as int].0, t[i].0, k);
                        }
                    }
                    hi = mid;
                },
            }
        }
        proof {
            lemma_place(t, k, lo as int);
        }
        lo
    }

    /// Insert, applying the key rules; a nil value is `codec_unsupported`.
    /// Returns whatever the key held before.
    #[verifier::spinoff_prover]
    #[verifier::rlimit(50)]
    pub fn insert(&mut self, key: Key, value: Value) -> (r: Result<Option<Value>, CodecError>)
        requires
            sorted(old(self)@),
        ensures
            sorted(final(self)@),
            match key_of(key_node(key@)) {
                Err(e) => r is Err && r->Err_0@ == e && final(self)@ == old(self)@,
                Ok(_) => if value@ is Nil {
                    r is Err && r->Err_0@ == nil_refusal() && final(self)@ == old(self)@
                } else {
                    r is Ok && final(self)@ == inserted(old(self)@, key@, value@) && match r->Ok_0 {
                        Some(v) => has_key(old(self)@, key@) && v@ == old(self)@[place(
                            old(self)@,
                            key@,
                        )].1,
                        None => !has_key(old(self)@, key@),
                    }
                },
            },
    {
        if let Key::Float(f) = &key {
            if let Err(e) = check_float_key(f) {
                return Err(e);
            }
        }
        if let Value::Nil = value {
            return Err(CodecError::new(CodecError::UNSUPPORTED, "nil is not a table value"));
        }
        let ghost t = self@;
        let ghost k = key@;
        let ghost v = value@;
        let p = self.search(&key);
        proof {
            lemma_nodes_of(self.entries@, self.entries@.len());
            law_insert_keeps_the_order(t, k, v);
            if p < t.len() {
                assert(t[p as int] == (
                    self.entries@[p as int].0@,
                    node_of(self.entries@[p as int].1),
                ));
            }
        }
        let ghost before = self.entries@;
        let mut there = false;
        if p < self.entries.len() {
            if let Order::Equal = self.entries[p].0.compare(&key) {
                there = true;
            }
        }
        if there {
            let mut had = value;
            std::mem::swap(&mut had, &mut self.entries[p].1);
            proof {
                lemma_nodes_of(self.entries@, self.entries@.len());
                assert(self@ =~= inserted(t, k, v)) by {
                    assert forall|i: int| 0 <= i < t.len() implies self@[i] == inserted(
                        t,
                        k,
                        v,
                    )[i] by {
                        assert(t[i] == (before[i].0@, node_of(before[i].1)));
                        assert(self@[i] == (
                            self.entries@[i].0@,
                            node_of(self.entries@[i].1),
                        ));
                    }
                }
            }
            return Ok(Some(had));
        }
        self.entries.insert(p, (key, value));
        proof {
            lemma_nodes_of(self.entries@, self.entries@.len());
            let u = inserted(t, k, v);
            assert(self@ =~= u) by {
                assert(self@.len() == u.len());
                assert forall|i: int| 0 <= i < u.len() implies self@[i] == u[i] by {
                    assert(self@[i] == (self.entries@[i].0@, node_of(self.entries@[i].1)));
                    if i < p {
                        assert(t[i] == (before[i].0@, node_of(before[i].1)));
                    } else if i > p {
                        assert(t[i - 1] == (before[i - 1].0@, node_of(before[i - 1].1)));
                    }
                }
            }
        }
        Ok(None)
    }

    pub fn get(&self, key: &Key) -> (r: Option<&Value>)
        requires
            sorted(self@),
        ensures
            match r {
                Some(v) => has_key(self@, key@) && v@ == self@[place(self@, key@)].1,
                None => !has_key(self@, key@),
            },
    {
        let p = self.search(key);
        proof {
            lemma_nodes_of(self.entries@, self.entries@.len());
            if p < self@.len() {
                assert(self@[p as int] == (
                    self.entries@[p as int].0@,
                    node_of(self.entries@[p as int].1),
                ));
            }
        }
        if p < self.entries.len() {
            if let Order::Equal = self.entries[p].0.compare(key) {
                return Some(&self.entries[p].1);
            }
        }
        None
    }

    pub fn len(&self) -> (n: usize)
        ensures
            n == self@.len(),
    {
        proof {
            lemma_nodes_of(self.entries@, self.entries@.len());
        }
        self.entries.len()
    }

    pub fn is_empty(&self) -> (r: bool)
        ensures
            r == (self@.len() == 0),
    {
        self.len() == 0
    }

    /// The entries in the order of their keys.
    pub fn iter(&self) -> (e: &Vec<(Key, Value)>)
        ensures
            entry_nodes(e@) == self@,
    {
        &self.entries
    }
}

} // verus!

use vstd::prelude::*;
use crate::text::{chars_eq, copy_text, Text};

verus! {

/// The data substituted into templates: a tree of scalars, lists and
/// mappings, built by the caller and never changed during a render, except
/// for the one scoped field the renderer may add on a copy.
pub enum DataValue {
    Null,
    Bool(bool),
    Int(i64),
    Text(Text),
    List(Vec<DataValue>),
    Object(Vec<(Text, DataValue)>),
}

/// The mathematical shape of a `DataValue`.
pub enum DataV {
    Null,
    Bool(bool),
    Int(int),
    Text(Seq<char>),
    List(Seq<DataV>),
    Object(Seq<(Seq<char>, DataV)>),
}

impl DataValue {
    pub open spec fn view(self) -> DataV
        decreases self, 1int,
    {
        match self {
            DataValue::Null => DataV::Null,
            DataValue::Bool(b) => DataV::Bool(b),
            DataValue::Int(n) => DataV::Int(n as int),
            DataValue::Text(t) => DataV::Text(t@),
            DataValue::List(items) => DataV::List(list_view(items@)),
            DataValue::Object(fields) => DataV::Object(fields_view(fields@)),
        }
    }
}

pub open spec fn list_view(items: Seq<DataValue>) -> Seq<DataV>
    decreases items, 0int,
{
    if items.len() == 0 {
        Seq::empty()
    } else {
        list_view(items.drop_last()).push(items.last().view())
    }
}

pub open spec fn fields_view(fields: Seq<(Text, DataValue)>) -> Seq<(Seq<char>, DataV)>
    decreases fields, 0int,
{
    if fields.len() == 0 {
        Seq::empty()
    } else {
        fields_view(fields.drop_last()).push((fields.last().0@, fields.last().1.view()))
    }
}

pub proof fn lemma_list_view(items: Seq<DataValue>)
    ensures
        list_view(items).len() == items.len(),
        forall|i: int| 0 <= i < items.len() ==> #[trigger] list_view(items)[i] == items[i].view(),
    decreases items.len(),
{
    if items.len() > 0 {
        lemma_list_view(items.drop_last());
        assert(forall|i: int| 0 <= i < items.len() - 1 ==> items.drop_last()[i] == items[i]);
    }
}

pub proof fn lemma_fields_view(fields: Seq<(Text, DataValue)>)
    ensures
        fields_view(fields).len() == fields.len(),
        forall|i: int|
            0 <= i < fields.len() ==> #[trigger] fields_view(fields)[i] == (
                fields[i].0@,
                fields[i].1.view(),
            ),
    decreases fields.len(),
{
    if fields.len() > 0 {
        lemma_fields_view(fields.drop_last());
        assert(forall|i: int| 0 <= i < fields.len() - 1 ==> fields.drop_last()[i] == fields[i]);
    }
}

pub open spec fn digit_char(d: int) -> char {
    if d == 0 {
        '0'
    } else if d == 1 {
        '1'
    } else if d == 2 {
        '2'
    } else if d == 3 {
        '3'
    } else if d == 4 {
        '4'
    } else if d == 5 {
        '5'
    } else if d == 6 {
        '6'
    } else if d == 7 {
        '7'
    } else if d == 8 {
        '8'
    } else {
        '9'
    }
}

pub open spec fn hex_char(d: int) -> char {
    if d < 10 {
        digit_char(d)
    } else if d == 10 {
        'a'
    } else if d == 11 {
        'b'
    } else if d == 12 {
        'c'
    } else if d == 13 {
        'd'
    } else if d == 14 {
        'e'
    } else {
        'f'
    }
}

/// The decimal digits of a natural number.
pub open spec fn nat_str(m: int) -> Seq<char>
    decreases m,
{
    if m < 10 {
        seq![digit_char(m)]
    } else {
        nat_str(m / 10) + seq![digit_char(m % 10)]
    }
}

/// The decimal form of an integer, with a leading minus when negative.
pub open spec fn int_str(n: int) -> Seq<char> {
    if n < 0 {
        seq!['-'] + nat_str(-n)
    } else {
        nat_str(n)
    }
}

/// How one character appears inside a JSON string literal.
pub open spec fn esc_char(c: char) -> Seq<char> {
    if c == '"' {
        seq!['\\', '"']
    } else if c == '\\' {
        seq!['\\', '\\']
    } else if c == '\n' {
        seq!['\\', 'n']
    } else if c == '\r' {
        seq!['\\', 'r']
    } else if c == '\t' {
        seq!['\\', 't']
    } else if (c as u32) < 0x20 {
        seq!['\\', 'u', '0', '0'] + seq![
            hex_char((c as u32) as int / 16),
            hex_char((c as u32) as int % 16),
        ]
    } else {
        seq![c]
    }
}

pub open spec fn escape(s: Seq<char>) -> Seq<char>
    decreases s.len(),
{
    if s.len() == 0 {
        Seq::empty()
    } else {
        escape(s.drop_last()) + esc_char(s.last())
    }
}

/// The JSON text of a data value: this is what the templating engine is
/// handed as its context.
pub open spec fn json_of(v: DataV) -> Seq<char>
    decreases v, 1int,
{
    match v {
        DataV::Null => seq!['n', 'u', 'l', 'l'],
        DataV::Bool(b) => {
            if b {
                seq!['t', 'r', 'u', 'e']
            } else {
                seq!['f', 'a', 'l', 's', 'e']
            }
        },
        DataV::Int(n) => int_str(n),
        DataV::Text(t) => seq!['"'] + escape(t) + seq!['"'],
        DataV::List(items) => seq!['['] + json_list(items) + seq![']'],
        DataV::Object(fields) => seq!['{'] + json_fields(fields) + seq!['}'],
    }
}

pub open spec fn json_list(items: Seq<DataV>) -> Seq<char>
    decreases items, 0int,
{
    if items.len() == 0 {
        Seq::empty()
    } else if items.len() == 1 {
        json_of(items.last())
    } else {
        json_list(items.drop_last()) + seq![','] + json_of(items.last())
    }
}

pub open spec fn json_fields(fields: Seq<(Seq<char>, DataV)>) -> Seq<char>
    decreases fields, 0int,
{
    if fields.len() == 0 {
        Seq::empty()
    } else {
        let one = seq!['"'] + escape(fields.last().0) + seq!['"', ':'] + json_of(fields.last().1);
        if fields.len() == 1 {
            one
        } else {
            json_fields(fields.drop_last()) + seq![','] + one
        }
    }
}

fn push_digit(out: &mut Text, d: u64)
    requires
        d < 10,
    ensures
        final(out)@ == old(out)@ + seq![digit_char(d as int)],
{
    if d == 0 {
        out.push('0');
    } else if d == 1 {
        out.push('1');
    } else if d == 2 {
        out.push('2');
    } else if d == 3 {
        out.push('3');
    } else if d == 4 {
        out.push('4');
    } else if d == 5 {
        out.push('5');
    } else if d == 6 {
        out.push('6');
    } else if d == 7 {
        out.push('7');
    } else if d == 8 {
        out.push('8');
    } else {
        out.push('9');
    }
    proof {
        assert(out@ =~= old(out)@ + seq![digit_char(d as int)]);
    }
}

fn push_hex(out: &mut Text, d: u32)
    requires
        d < 16,
    ensures
        final(out)@ == old(out)@ + seq![hex_char(d as int)],
{
    if d < 10 {
        push_digit(out, d as u64);
    } else if d == 10 {
        out.push('a');
    } else if d == 11 {
        out.push('b');
    } else if d == 12 {
        out.push('c');
    } else if d == 13 {
        out.push('d');
    } else if d == 14 {
        out.push('e');
    } else {
        out.push('f');
    }
    proof {
        assert(out@ =~= old(out)@ + seq![hex_char(d as int)]);
    }
}

fn push_nat(out: &mut Text, m: u64)
    ensures
        final(out)@ == old(out)@ + nat_str(m as int),
    decreases m,
{
    if m < 10 {
        push_digit(out, m);
    } else {
        push_nat(out, m / 10);
        push_digit(out, m % 10);
        proof {
            assert(out@ =~= old(out)@ + nat_str(m as int));
        }
    }
}

fn push_int(out: &mut Text, n: i64)
    ensures
        final(out)@ == old(out)@ + int_str(n as int),
{
    if n < 0 {
        out.push('-');
        let m: u64 = ((-(n as i128)) as u64);
        proof {
            assert(m as int == -(n as int));
        }
        push_nat(out, m);
        proof {
            assert(out@ =~= old(out)@ + int_str(n as int));
        }
    } else {
        push_nat(out, n as u64);
    }
}

fn push_escaped(out: &mut Text, t: &Text)
    ensures
        final(out)@ == old(out)@ + escape(t@),
{
    let mut i: usize = 0;
    while i < t.len()
        invariant
            0 <= i <= t@.len(),
            t@.len() == t.len(),
            out@ == old(out)@ + escape(t@.take(i as int)),
        decreases t@.len() - i,
    {
        let c = t[i];
        if c == '"' {
            out.push('\\');
            out.push('"');
        } else if c == '\\' {
            out.push('\\');
            out.push('\\');
        } else if c == '\n' {
            out.push('\\');
            out.push('n');
        } else if c == '\r' {
            out.push('\\');
            out.push('r');
        } else if c == '\t' {
            out.push('\\');
            out.push('t');
        } else if (c as u32) < 0x20 {
            out.push('\\');
            out.push('u');
            out.push('0');
            out.push('0');
            push_hex(out, (c as u32) / 16);
            push_hex(out, (c as u32) % 16);
        } else {
            out.push(c);
        }
        proof {
            assert(t@.take(i + 1).drop_last() =~= t@.take(i as int));
            assert(t@.take(i + 1).last() == t@[i as int]);
            assert(out@ =~= old(out)@ + escape(t@.take(i + 1)));
        }
        i = i + 1;
    }
    proof {
        assert(t@.take(t@.len() as int) =~= t@);
    }
}

/// Write the JSON text of `v` onto `out`.
#[verifier::loop_isolation(false)]
#[verifier::rlimit(100)]
fn push_json(out: &mut Text, v: &DataValue)
    ensures
        final(out)@ == old(out)@ + json_of(v.view()),
    decreases v,
{
    match v {
        DataValue::Null => {
            out.push('n');
            out.push('u');
            out.push('l');
            out.push('l');
            proof {
                assert(out@ =~= old(out)@ + json_of(v.view()));
            }
        },
        DataValue::Bool(b) => {
            if *b {
                out.push('t');
                out.push('r');
                out.push('u');
                out.push('e');
            } else {
                out.push('f');
                out.push('a');
                out.push('l');
                out.push('s');
                out.push('e');
            }
            proof {
                assert(out@ =~= old(out)@ + json_of(v.view()));
            }
        },
        DataValue::Int(n) => {
            push_int(out, *n);
        },
        DataValue::Text(t) => {
            out.push('"');
            push_escaped(out, t);
            out.push('"');
            proof {
                assert(out@ =~= old(out)@ + json_of(v.view()));
            }
        },
        DataValue::List(items) => {
            proof {
                lemma_list_view(items@);
            }
            let ghost lv = list_view(items@);
            let ghost out0 = out@;
            out.push('[');
            let mut i: usize = 0;
            while i < items.len()
                invariant
                    0 <= i <= items@.len(),
                    out@ == out0 + seq!['['] + json_list(lv.take(i as int)),
                decreases items@.len() - i,
            {
                if i > 0 {
                    out.push(',');
                }
                proof {
                    assert(decreases_to!(*v => *items));
                    assert(decreases_to!(*items => items@));
                    assert(decreases_to!(items@ => items@[i as int]));
                }
                push_json(out, &items[i]);
                proof {
                    assert(lv.take(i + 1).drop_last() =~= lv.take(i as int));
                    assert(lv.take(i + 1).last() == lv[i as int]);
                    assert(out@ =~= out0 + seq!['['] + json_list(lv.take(i + 1)));
                }
                i = i + 1;
            }
            out.push(']');
            proof {
                assert(lv.take(lv.len() as int) =~= lv);
                assert(out@ =~= old(out)@ + json_of(v.view()));
            }
        },
        DataValue::Object(fields) => {
            proof {
                lemma_fields_view(fields@);
            }
            let ghost fv = fields_view(fields@);
            let ghost out0 = out@;
            out.push('{');
            let mut i: usize = 0;
            while i < fields.len()
                invariant
                    0 <= i <= fields@.len(),
                    out@ == out0 + seq!['{'] + json_fields(fv.take(i as int)),
                decreases fields@.len() - i,
            {
                if i > 0 {
                    out.push(',');
                }
                out.push('"');
                push_escaped(out, &fields[i].0);
                out.push('"');
                out.push(':');
                proof {
                    assert(decreases_to!(*v => *fields));
                    assert(decreases_to!(*fields => fields@));
                    assert(decreases_to!(fields@ => fields@[i as int]));
                    assert(decreases_to!(fields@[i as int] => fields@[i as int].1));
                }
                push_json(out, &fields[i].1);
                proof {
                    assert(fv.take(i + 1).drop_last() =~= fv.take(i as int));
                    assert(fv.take(i + 1).last() == fv[i as int]);
                    assert(out@ =~= out0 + seq!['{'] + json_fields(fv.take(i + 1)));
                }
                i = i + 1;
            }
            out.push('}');
            proof {
                assert(fv.take(fv.len() as int) =~= fv);
                assert(out@ =~= old(out)@ + json_of(v.view()));
            }
        },
    }
}

/// The JSON text of a data value.
pub fn to_json(v: &DataValue) -> (r: Text)
    ensures
        r@ == json_of(v.view()),
{
    let mut out: Text = Vec::new();
    push_json(&mut out, v);
    proof {
        assert(out@ =~= json_of(v.view()));
    }
    out
}

/// Index of the first field named `key`, or the field count when absent.
pub open spec fn key_pos(fields: Seq<(Seq<char>, DataV)>, key: Seq<char>) -> int
    decreases fields.len(),
{
    if fields.len() == 0 {
        0
    } else if fields[0].0 == key {
        0
    } else {
        1 + key_pos(fields.drop_first(), key)
    }
}

pub proof fn lemma_key_pos(fields: Seq<(Seq<char>, DataV)>, key: Seq<char>)
    ensures
        0 <= key_pos(fields, key) <= fields.len(),
        forall|k: int| 0 <= k < key_pos(fields, key) ==> (#[trigger] fields[k]).0 != key,
        key_pos(fields, key) < fields.len() ==> fields[key_pos(fields, key)].0 == key,
    decreases fields.len(),
{
    if fields.len() > 0 && fields[0].0 != key {
        lemma_key_pos(fields.drop_first(), key);
        assert(forall|k: int|
            0 <= k < fields.len() - 1 ==> #[trigger] fields.drop_first()[k] == fields[k + 1]);
        assert forall|k: int| 0 <= k < key_pos(fields, key) implies (#[trigger] fields[k]).0
            != key by {
            if k > 0 {
                assert(fields.drop_first()[k - 1] == fields[k]);
            }
        }
    }
}

/// The value of the first field named `key`.
pub open spec fn obj_field(v: DataV, key: Seq<char>) -> Option<DataV> {
    match v {
        DataV::Object(fields) => {
            let j = key_pos(fields, key);
            if j < fields.len() {
                Some(fields[j].1)
            } else {
                None
            }
        },
        _ => None,
    }
}

/// The mapping with `key` bound to `val`: replaces the first field with that
/// name in place, or appends a new field.
pub open spec fn with_field(v: DataV, key: Seq<char>, val: DataV) -> DataV {
    match v {
        DataV::Object(fields) => {
            let j = key_pos(fields, key);
            if j < fields.len() {
                DataV::Object(fields.update(j, (key, val)))
            } else {
                DataV::Object(fields.push((key, val)))
            }
        },
        _ => v,
    }
}

/// Binding a key makes it readable, and no other key changes.
pub proof fn lemma_with_field(v: DataV, key: Seq<char>, val: DataV)
    requires
        v is Object,
    ensures
        with_field(v, key, val) is Object,
        obj_field(with_field(v, key, val), key) == Some(val),
        forall|q: Seq<char>| q != key ==> obj_field(with_field(v, key, val), q) == obj_field(v, q),
{
    let fields = v->Object_0;
    lemma_key_pos(fields, key);
    let j = key_pos(fields, key);
    let fields2 = with_field(v, key, val)->Object_0;
    lemma_key_pos(fields2, key);
    assert(fields2[j] == (key, val));
    assert forall|k: int| 0 <= k < fields2.len() && k != j implies fields2[k] == fields[k] by {}
    assert(key_pos(fields2, key) == j) by {
        let j2 = key_pos(fields2, key);
        if j2 < j {
            assert(fields2[j2].0 != key);
            assert(fields[j2].0 != key);
        } else if j < j2 {
            assert(fields2[j].0 != key);
        }
    }
    assert forall|q: Seq<char>| q != key implies obj_field(with_field(v, key, val), q) == obj_field(
        v,
        q,
    ) by {
        lemma_key_pos(fields, q);
        lemma_key_pos(fields2, q);
        let a = key_pos(fields, q);
        let b = key_pos(fields2, q);
        if a < b {
            if a < fields.len() {
                assert(fields[a].0 == q);
                assert(fields2[a].0 != q);
                assert(a != j);
            }
        } else if b < a {
            assert(fields2[b].0 == q);
            assert(fields[b].0 != q);
            assert(b == j);
            assert(fields2[j].0 == key);
        }
    }
}

/// A fresh deep copy with the same shape and contents.
impl DataValue {
    #[verifier::loop_isolation(false)]
    pub fn duplicate(&self) -> (r: DataValue)
        ensures
            r.view() == self.view(),
        decreases self,
    {
        match self {
            DataValue::Null => DataValue::Null,
            DataValue::Bool(b) => DataValue::Bool(*b),
            DataValue::Int(n) => DataValue::Int(*n),
            DataValue::Text(t) => DataValue::Text(copy_text(t)),
            DataValue::List(items) => {
                let mut out: Vec<DataValue> = Vec::new();
                let mut i: usize = 0;
                while i < items.len()
                    invariant
                        0 <= i <= items@.len(),
                        out@.len() == i,
                        forall|k: int| 0 <= k < i ==> (#[trigger] out@[k]).view() == items@[k].view(),
                    decreases items@.len() - i,
                {
                    proof {
                        assert(decreases_to!(*self => *items));
                        assert(decreases_to!(*items => items@));
                        assert(decreases_to!(items@ => items@[i as int]));
                    }
                    let d = items[i].duplicate();
                    out.push(d);
                    i = i + 1;
                }
                proof {
                    lemma_list_view(out@);
                    lemma_list_view(items@);
                    assert(list_view(out@) =~= list_view(items@));
                }
                DataValue::List(out)
            },
            DataValue::Object(fields) => {
                let mut out: Vec<(Text, DataValue)> = Vec::new();
                let mut i: usize = 0;
                while i < fields.len()
                    invariant
                        0 <= i <= fields@.len(),
                        out@.len() == i,
                        forall|k: int|
                            0 <= k < i ==> #[trigger] out@[k].0@ == fields@[k].0@
                                && out@[k].1.view() == fields@[k].1.view(),
                    decreases fields@.len() - i,
                {
                    proof {
                        assert(decreases_to!(*self => *fields));
                        assert(decreases_to!(*fields => fields@));
                        assert(decreases_to!(fields@ => fields@[i as int]));
                        assert(decreases_to!(fields@[i as int] => fields@[i as int].1));
                    }
                    let name = copy_text(&fields[i].0);
                    let d = fields[i].1.duplicate();
                    out.push((name, d));
                    i = i + 1;
                }
                proof {
                    lemma_fields_view(out@);
                    lemma_fields_view(fields@);
                    assert(fields_view(out@) =~= fields_view(fields@));
                }
                DataValue::Object(out)
            },
        }
    }
}

/// A copy of `v` with `key` bound to `val`; `v` must be a mapping, as a
/// render context always is.
pub fn data_with_field(v: &DataValue, key: &Text, val: &DataValue) -> (r: DataValue)
    requires
        v is Object,
    ensures
        r.view() == with_field(v.view(), key@, val.view()),
{
    match v {
        DataValue::Object(fields) => {
            proof {
                lemma_fields_view(fields@);
                lemma_key_pos(fields_view(fields@), key@);
            }
            let ghost fv = fields_view(fields@);
            let ghost j = key_pos(fv, key@);
            let ghost pairv = (key@, val.view());
            let mut out: Vec<(Text, DataValue)> = Vec::new();
            let mut replaced = false;
            let mut i: usize = 0;
            proof {
                lemma_fields_view(out@);
                assert(fields_view(out@) =~= fv.take(0));
            }
            while i < fields.len()
                invariant
                    0 <= i <= fields@.len(),
                    fields@.len() == fields.len(),
                    fv == fields_view(fields@),
                    fv.len() == fields@.len(),
                    j == key_pos(fv, key@),
                    0 <= j <= fv.len(),
                    forall|k: int| 0 <= k < j ==> (#[trigger] fv[k]).0 != key@,
                    j < fv.len() ==> fv[j].0 == key@,
                    forall|k: int|
                        0 <= k < fields@.len() ==> #[trigger] fv[k] == (
                            fields@[k].0@,
                            fields@[k].1.view(),
                        ),
                    pairv == (key@, val.view()),
                    replaced == (j < i),
                    fields_view(out@) == if j < i {
                        fv.take(i as int).update(j, pairv)
                    } else {
                        fv.take(i as int)
                    },
                decreases fields@.len() - i,
            {
                proof {
                    assert(fv[i as int] == (fields@[i as int].0@, fields@[i as int].1.view()));
                }
                let ghost out_prev = out@;
                if !replaced && chars_eq(&fields[i].0, key) {
                    out.push((copy_text(key), val.duplicate()));
                    replaced = true;
                    proof {
                        lemma_fields_view(out_prev);
                        lemma_fields_view(out@);
                        assert(forall|k: int| 0 <= k < i ==> out@[k] == out_prev[k]);
                        assert(fields_view(out@) =~= fields_view(out_prev).push(pairv));
                        assert(fields_view(out@) =~= fv.take(i + 1).update(j, pairv));
                    }
                } else {
                    out.push((copy_text(&fields[i].0), fields[i].1.duplicate()));
                    proof {
                        lemma_fields_view(out_prev);
                        lemma_fields_view(out@);
                        assert(forall|k: int| 0 <= k < i ==> out@[k] == out_prev[k]);
                        assert(fields_view(out@) =~= fields_view(out_prev).push(fv[i as int]));
                        if j < i {
                            assert(fields_view(out@) =~= fv.take(i + 1).update(j, pairv));
                        } else {
                            assert(fields_view(out@) =~= fv.take(i + 1));
                        }
                    }
                }
                i = i + 1;
            }
            if replaced {
                proof {
                    assert(fv.take(fv.len() as int) =~= fv);
                    assert(fields_view(out@) =~= fv.update(j, pairv));
                }
            } else {
                let ghost out_prev = out@;
                out.push((copy_text(key), val.duplicate()));
                proof {
                    lemma_fields_view(out_prev);
                    lemma_fields_view(out@);
                    assert(forall|k: int| 0 <= k < fv.len() ==> out@[k] == out_prev[k]);
                    assert(fv.take(fv.len() as int) =~= fv);
                    assert(fields_view(out@) =~= fv.push(pairv));
                }
            }
            DataValue::Object(out)
        },
        _ => v.duplicate(),
    }
}

} // verus!

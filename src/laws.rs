//! Properties that hold of every encoding, proved from the model.
use vstd::prelude::*;
use vstd::relations::sorted_by;
use vstd::utf8::{encode_utf8, is_ascii_chars, is_ascii_chars_encode_utf8};

use crate::error::Error;
use crate::model::{
    array_text, byte_order, canonical_order, canonical_result, dec_nat, encode, encode_items,
    encode_members, key_text, member_text, object_of, object_text, quoted, tagged_text, MAX_LEN,
    QUOTE,
};
use crate::sort::{lemma_byte_order_total, lemma_canonical_order_unique};
use crate::validity::lemma_escape_identity;
use crate::value::Value;

verus! {

broadcast use vstd::seq_lib::group_to_multiset_ensures, vstd::multiset::group_multiset_axioms;

/// The text of one member of a keyed group.
pub open spec fn entry_text(e: (Value, Value)) -> Result<Seq<u8>, Seq<char>> {
    member_text(key_text(e.0), encode(e.1))
}

pub open spec fn entry_texts(es: Seq<(Value, Value)>) -> Seq<Seq<u8>> {
    es.map_values(|e: (Value, Value)| entry_text(e)->Ok_0)
}

/// A group renders exactly when each member does, and then member by member.
proof fn lemma_members_all(es: Seq<(Value, Value)>)
    ensures
        encode_members(es) is Ok <==> forall|i: int|
            0 <= i < es.len() ==> #[trigger] entry_text(es[i]) is Ok,
        encode_members(es) is Ok ==> encode_members(es)->Ok_0 == entry_texts(es),
    decreases es.len(),
{
    if es.len() > 0 {
        let init = es.drop_last();
        lemma_members_all(init);
        assert forall|i: int| 0 <= i < init.len() implies #[trigger] init[i] == es[i] by {}
        if forall|i: int| 0 <= i < es.len() ==> #[trigger] entry_text(es[i]) is Ok {
            assert(entry_text(es[es.len() - 1]) is Ok);
            assert forall|i: int| 0 <= i < init.len() implies #[trigger] entry_text(init[i]) is Ok by {
                assert(entry_text(es[i]) is Ok);
            }
        }
        if encode_members(es) is Ok {
            assert forall|i: int| 0 <= i < es.len() implies #[trigger] entry_text(es[i]) is Ok by {
                if i < init.len() {
                    assert(entry_text(init[i]) is Ok);
                }
            }
            assert(entry_texts(es) =~= entry_texts(init).push(entry_text(es.last())->Ok_0));
        }
    }
}

proof fn lemma_map_multiset<A, B>(s1: Seq<A>, s2: Seq<A>, f: spec_fn(A) -> B)
    requires
        s1.to_multiset() == s2.to_multiset(),
    ensures
        s1.map_values(f).to_multiset() == s2.map_values(f).to_multiset(),
    decreases s1.len(),
{
    if s1.len() == 0 {
        assert(s2.len() == s2.to_multiset().len());
        assert(s1.map_values(f) =~= Seq::<B>::empty());
        assert(s2.map_values(f) =~= Seq::<B>::empty());
    } else {
        let x = s1.last();
        let s1p = s1.drop_last();
        assert(s1 =~= s1p.push(x));
        assert(s2.to_multiset().count(x) > 0);
        assert(s2.contains(x));
        let j = choose|j: int| 0 <= j < s2.len() && s2[j] == x;
        let s2p = s2.remove(j);
        assert(s2p.to_multiset() =~= s2.to_multiset().remove(x));
        assert(s1p.to_multiset() =~= s1.to_multiset().remove(x));
        lemma_map_multiset(s1p, s2p, f);
        assert(s1.map_values(f) =~= s1p.map_values(f).push(f(x)));
        assert(s2.map_values(f) =~= s2p.map_values(f).insert(j, f(x)));
        vstd::seq_lib::to_multiset_insert(s2p.map_values(f), j, f(x));
    }
}

proof fn lemma_all_ok_transfer(es1: Seq<(Value, Value)>, es2: Seq<(Value, Value)>)
    requires
        es1.to_multiset() == es2.to_multiset(),
        forall|i: int| 0 <= i < es1.len() ==> #[trigger] entry_text(es1[i]) is Ok,
    ensures
        forall|i: int| 0 <= i < es2.len() ==> #[trigger] entry_text(es2[i]) is Ok,
{
    assert forall|i: int| 0 <= i < es2.len() implies #[trigger] entry_text(es2[i]) is Ok by {
        assert(es2.contains(es2[i]));
        assert(es1.to_multiset().count(es2[i]) > 0);
        assert(es1.contains(es2[i]));
    }
}

/// Two groups with the same members, in whatever order, encode alike.
pub proof fn lemma_members_permutation(es1: Seq<(Value, Value)>, es2: Seq<(Value, Value)>)
    requires
        es1.to_multiset() == es2.to_multiset(),
    ensures
        encode_members(es1) is Ok <==> encode_members(es2) is Ok,
        encode_members(es1) is Ok ==> object_of(encode_members(es1)) == object_of(
            encode_members(es2),
        ),
{
    lemma_members_all(es1);
    lemma_members_all(es2);
    if encode_members(es1) is Ok {
        lemma_all_ok_transfer(es1, es2);
        let f = |e: (Value, Value)| entry_text(e)->Ok_0;
        lemma_map_multiset(es1, es2, f);
        let ms1 = entry_texts(es1);
        let ms2 = entry_texts(es2);
        lemma_byte_order_total();
        ms1.lemma_sort_by_ensures(byte_order());
        lemma_canonical_order_unique(ms2, canonical_order(ms1));
    }
    if encode_members(es2) is Ok {
        lemma_all_ok_transfer(es2, es1);
    }
}

/// Presenting the members of a keyed group in another order changes
/// nothing: both encodings succeed or both fail, and on success the bytes
/// are the same.
pub proof fn law_member_order(a: Vec<(Value, Value)>, b: Vec<(Value, Value)>)
    requires
        a@.to_multiset() == b@.to_multiset(),
    ensures
        encode(Value::Object(a)) is Ok <==> encode(Value::Object(b)) is Ok,
        encode(Value::Object(a)) is Ok ==> encode(Value::Object(a)) == encode(Value::Object(b)),
{
    lemma_members_permutation(a@, b@);
}

/// A character that is written as itself: printable ASCII other than the
/// quote and the backslash.
pub open spec fn plain_char(c: char) -> bool {
    ' ' <= c <= '~' && c != '"' && c != '\\'
}

/// A string of plain characters is encoded as the same characters between
/// quotes.
pub proof fn law_plain_string(s: String)
    requires
        forall|i: int| 0 <= i < s@.len() ==> plain_char(#[trigger] s@[i]),
    ensures
        encode(Value::Str(s)) == Ok::<Seq<u8>, Seq<char>>(
            seq![QUOTE] + s@.map_values(|c: char| c as u8) + seq![QUOTE],
        ),
{
    let cs = s@;
    assert forall|i: int| 0 <= i < cs.len() implies '\0' <= #[trigger] cs[i] <= '\u{7f}' by {
        assert(plain_char(cs[i]));
    }
    assert(is_ascii_chars(cs));
    is_ascii_chars_encode_utf8(cs);
    let bytes = encode_utf8(cs);
    assert(bytes =~= cs.map_values(|c: char| c as u8));
    lemma_escape_identity(bytes);
}

/// Whether a float stands anywhere in `v`, keys included.
pub open spec fn has_float(v: Value) -> bool
    decreases v,
{
    match v {
        Value::F32(_) => true,
        Value::F64(_) => true,
        Value::Present(x) => has_float(*x),
        Value::NewtypeVariant(_, x) => has_float(*x),
        Value::List(xs) => any_float(xs@),
        Value::TupleVariant(_, xs) => any_float(xs@),
        Value::Object(es) => any_float_member(es@),
        Value::StructVariant(_, es) => any_float_member(es@),
        _ => false,
    }
}

pub open spec fn any_float(xs: Seq<Value>) -> bool
    decreases xs,
{
    xs.len() > 0 && (any_float(xs.drop_last()) || has_float(xs.last()))
}

pub open spec fn any_float_member(es: Seq<(Value, Value)>) -> bool
    decreases es,
{
    es.len() > 0 && (any_float_member(es.drop_last()) || has_float(es.last().0) || has_float(
        es.last().1,
    ))
}

proof fn lemma_float_fails(v: Value)
    requires
        has_float(v),
    ensures
        encode(v) is Err,
    decreases v,
{
    match v {
        Value::Present(x) => lemma_float_fails(*x),
        Value::NewtypeVariant(_, x) => lemma_float_fails(*x),
        Value::List(xs) => lemma_float_items(xs@),
        Value::TupleVariant(_, xs) => lemma_float_items(xs@),
        Value::Object(es) => lemma_float_members(es@),
        Value::StructVariant(_, es) => lemma_float_members(es@),
        _ => {},
    }
}

proof fn lemma_float_items(xs: Seq<Value>)
    requires
        any_float(xs),
    ensures
        encode_items(xs) is Err,
    decreases xs,
{
    if any_float(xs.drop_last()) {
        lemma_float_items(xs.drop_last());
    } else {
        lemma_float_fails(xs.last());
    }
}

proof fn lemma_float_members(es: Seq<(Value, Value)>)
    requires
        any_float_member(es),
    ensures
        encode_members(es) is Err,
    decreases es,
{
    if any_float_member(es.drop_last()) {
        lemma_float_members(es.drop_last());
    } else if !has_float(es.last().0) {
        lemma_float_fails(es.last().1);
    }
}

/// A value with a float anywhere in it, keys included, is refused with
/// `InvalidInput`, and no bytes come out.
pub proof fn law_float_rejected(v: Value, r: Result<Vec<u8>, Error>)
    requires
        has_float(v),
        canonical_result(v, r),
    ensures
        r matches Err(Error::InvalidInput(_)),
{
    lemma_float_fails(v);
}

/// An encoding longer than the limit is refused with `SizeLimit`.
pub proof fn law_size_limit(v: Value, r: Result<Vec<u8>, Error>)
    requires
        encode(v) is Ok,
        encode(v)->Ok_0.len() > MAX_LEN,
        canonical_result(v, r),
    ensures
        r matches Err(Error::SizeLimit),
{
}

/// Whether `w` is a number whose value is `n`.
pub open spec fn same_number(n: int, w: Value) -> bool {
    ||| (w matches Value::Int(j) && j as int == n)
    ||| (w matches Value::UInt(j) && j as int == n)
}

/// Whether `k` is a string whose characters are `name`.
pub open spec fn named(k: Value, name: Seq<char>) -> bool {
    k matches Value::Str(t) && t@ == name
}

/// `w` is what a JSON reader builds from the encoding of `v`: the same
/// document, with each number, string, array and object as the reader
/// gives it back and the members of each object in any order.
pub open spec fn reparsed(v: Value, w: Value) -> bool
    decreases v, 0nat,
{
    match v {
        Value::Null => w is Null,
        Value::Bool(b) => w == Value::Bool(b),
        Value::Int(i) => same_number(i as int, w),
        Value::UInt(u) => same_number(u as int, w),
        Value::Str(s) => named(w, s@),
        Value::Bytes(b) => w matches Value::List(ys) && ys@.len() == b@.len() && forall|i: int|
            0 <= i < b@.len() ==> same_number(b@[i] as int, #[trigger] ys@[i]),
        Value::Present(x) => reparsed(*x, w),
        Value::List(xs) => w matches Value::List(ys) && reparsed_items(xs@, ys@),
        Value::Object(es) => w matches Value::Object(fs) && reparsed_members(es@, fs@),
        Value::UnitVariant(name) => named(w, name@),
        Value::NewtypeVariant(_, x) => reparsed(*x, w),
        Value::TupleVariant(name, xs) => w matches Value::Object(fs) && fs@.len() == 1 && named(
            fs@[0].0,
            name@,
        ) && (fs@[0].1 matches Value::List(ys) && reparsed_items(xs@, ys@)),
        Value::StructVariant(name, es) => w matches Value::Object(fs) && fs@.len() == 1 && named(
            fs@[0].0,
            name@,
        ) && (fs@[0].1 matches Value::Object(gs) && reparsed_members(es@, gs@)),
        _ => false,
    }
}

pub open spec fn reparsed_items(xs: Seq<Value>, ys: Seq<Value>) -> bool
    decreases xs, 0nat,
{
    xs.len() == ys.len() && (xs.len() == 0 || (reparsed_items(xs.drop_last(), ys.drop_last())
        && reparsed(xs.last(), ys.last())))
}

/// `kw` is the string that a reader gets back from the key `k`.
pub open spec fn key_read(k: Value, kw: Value) -> bool {
    kw matches Value::Str(t) && key_text(k) == Some(quoted(t@))
}

/// The members `fs`, in some order, are read back from the members `es`.
pub open spec fn reparsed_members(es: Seq<(Value, Value)>, fs: Seq<(Value, Value)>) -> bool
    decreases es, 1nat,
{
    exists|p: Seq<(Value, Value)>| p.to_multiset() == fs.to_multiset() && paired_members(es, p)
}

/// Member by member: the key is read back as the string it was written as,
/// and the value as `reparsed` says.
pub open spec fn paired_members(es: Seq<(Value, Value)>, ps: Seq<(Value, Value)>) -> bool
    decreases es, 0nat,
{
    es.len() == ps.len() && (es.len() == 0 || (paired_members(es.drop_last(), ps.drop_last())
        && key_read(es.last().0, ps.last().0) && reparsed(es.last().1, ps.last().1)))
}

proof fn lemma_single_member(m: Seq<u8>)
    ensures
        object_text(seq![m]) == seq![0x7bu8] + m + seq![0x7du8],
{
    lemma_byte_order_total();
    assert(sorted_by(seq![m], byte_order()));
    lemma_canonical_order_unique(seq![m], seq![m]);
    assert(object_text(seq![m]) =~= seq![0x7bu8] + m + seq![0x7du8]);
}

proof fn lemma_reparsed(v: Value, w: Value)
    requires
        reparsed(v, w),
        encode(v) is Ok,
    ensures
        encode(w) == encode(v),
    decreases v, 0nat,
{
    match v {
        Value::Bytes(b) => {
            let ys = w->List_0@;
            let parts = b@.map_values(|x: u8| dec_nat(x as nat));
            lemma_number_items(ys, parts, b@);
        },
        Value::Present(x) => lemma_reparsed(*x, w),
        Value::NewtypeVariant(_, x) => lemma_reparsed(*x, w),
        Value::List(xs) => lemma_reparsed_items(xs@, w->List_0@),
        Value::Object(es) => lemma_reparsed_members(es@, w->Object_0@),
        Value::TupleVariant(name, xs) => {
            let f = w->Object_0@[0];
            let ys = f.1->List_0@;
            lemma_reparsed_items(xs@, ys);
            let fs = w->Object_0@;
            assert(fs.drop_last() =~= Seq::<(Value, Value)>::empty());
            assert(encode_members(fs.drop_last()) == Ok::<Seq<Seq<u8>>, Seq<char>>(seq![]));
            assert(fs.last() == f);
            assert(member_text(key_text(f.0), encode(f.1)) is Ok);
            let m = member_text(key_text(f.0), encode(f.1))->Ok_0;
            assert(seq![m] =~= Seq::<Seq<u8>>::empty().push(m));
            assert(encode_members(fs) == Ok::<Seq<Seq<u8>>, Seq<char>>(seq![m]));
            lemma_single_member(m);
            assert(encode(w)->Ok_0 =~= tagged_text(name@, array_text(encode_items(xs@)->Ok_0)));
        },
        Value::StructVariant(name, es) => {
            let f = w->Object_0@[0];
            let gs = f.1->Object_0@;
            lemma_reparsed_members(es@, gs);
            let fs = w->Object_0@;
            assert(fs.drop_last() =~= Seq::<(Value, Value)>::empty());
            assert(encode_members(fs.drop_last()) == Ok::<Seq<Seq<u8>>, Seq<char>>(seq![]));
            assert(fs.last() == f);
            assert(member_text(key_text(f.0), encode(f.1)) is Ok);
            let m = member_text(key_text(f.0), encode(f.1))->Ok_0;
            assert(seq![m] =~= Seq::<Seq<u8>>::empty().push(m));
            assert(encode_members(fs) == Ok::<Seq<Seq<u8>>, Seq<char>>(seq![m]));
            lemma_single_member(m);
            assert(encode(w)->Ok_0 =~= tagged_text(name@, object_text(encode_members(es@)->Ok_0)));
        },
        _ => {},
    }
}

proof fn lemma_number_items(ys: Seq<Value>, parts: Seq<Seq<u8>>, b: Seq<u8>)
    requires
        ys.len() == b.len(),
        parts == b.map_values(|x: u8| dec_nat(x as nat)),
        forall|i: int| 0 <= i < b.len() ==> same_number(b[i] as int, #[trigger] ys[i]),
    ensures
        encode_items(ys) == Ok::<Seq<Seq<u8>>, Seq<char>>(parts),
    decreases ys.len(),
{
    if ys.len() > 0 {
        let n = ys.len() - 1;
        assert forall|i: int| 0 <= i < n implies same_number(
            b.drop_last()[i] as int,
            #[trigger] ys.drop_last()[i],
        ) by {
            assert(same_number(b[i] as int, ys[i]));
        }
        assert(parts.drop_last() =~= b.drop_last().map_values(|x: u8| dec_nat(x as nat)));
        lemma_number_items(ys.drop_last(), parts.drop_last(), b.drop_last());
        assert(same_number(b[n] as int, ys[n]));
        assert(ys.last() == ys[n]);
        assert(encode(ys[n]) == Ok::<Seq<u8>, Seq<char>>(parts[n]));
        assert(parts =~= parts.drop_last().push(parts[n]));
    } else {
        assert(parts =~= Seq::<Seq<u8>>::empty());
    }
}

proof fn lemma_reparsed_items(xs: Seq<Value>, ys: Seq<Value>)
    requires
        reparsed_items(xs, ys),
        encode_items(xs) is Ok,
    ensures
        encode_items(ys) == encode_items(xs),
    decreases xs, 0nat,
{
    if xs.len() > 0 {
        lemma_reparsed_items(xs.drop_last(), ys.drop_last());
        lemma_reparsed(xs.last(), ys.last());
    }
}

proof fn lemma_paired_members(es: Seq<(Value, Value)>, ps: Seq<(Value, Value)>)
    requires
        paired_members(es, ps),
        encode_members(es) is Ok,
    ensures
        encode_members(ps) == encode_members(es),
    decreases es, 0nat,
{
    if es.len() > 0 {
        lemma_paired_members(es.drop_last(), ps.drop_last());
        lemma_reparsed(es.last().1, ps.last().1);
    }
}

proof fn lemma_reparsed_members(es: Seq<(Value, Value)>, fs: Seq<(Value, Value)>)
    requires
        reparsed_members(es, fs),
        encode_members(es) is Ok,
    ensures
        object_of(encode_members(fs)) == object_of(encode_members(es)),
    decreases es, 1nat,
{
    let ps = choose|p: Seq<(Value, Value)>|
        p.to_multiset() == fs.to_multiset() && paired_members(es, p);
    lemma_paired_members(es, ps);
    lemma_members_permutation(ps, fs);
}

/// Re-encoding what a JSON reader builds from an encoding gives the same
/// bytes.
pub proof fn law_reencoding(v: Value, w: Value)
    requires
        encode(v) is Ok,
        reparsed(v, w),
    ensures
        encode(w) == encode(v),
{
    lemma_reparsed(v, w);
}

} // verus!

//! The hub's wire encoding of directed commands.
//!
//! The lifecycle commands are bare words; the mint command carries the
//! submitted item description as a JSON text whose five string fields are
//! escaped one character at a time. The decoder inverts the encoder exactly,
//! so a delivered mint message decodes to the submitted item unchanged.

use vstd::prelude::*;
use vstd::string::StrSliceExecFns;
use vstd::string::StringExecFns;

use crate::model::NFTAttributes;
use crate::model::NFTItem;

verus! {

/// The wire escaping of one string: a quote or a backslash is preceded by a
/// backslash, every other character stands as it is.
pub open spec fn esc(s: Seq<char>) -> Seq<char>
    decreases s.len(),
{
    if s.len() == 0 {
        Seq::<char>::empty()
    } else {
        let c = s.first();
        let head: Seq<char> = if c == '"' || c == '\\' {
            seq!['\\', c]
        } else {
            seq![c]
        };
        head + esc(s.drop_first())
    }
}

/// Escaping distributes over concatenation.
pub proof fn lemma_esc_concat(a: Seq<char>, b: Seq<char>)
    ensures
        esc(a + b) == esc(a) + esc(b),
    decreases a.len(),
{
    if a.len() == 0 {
        assert(a + b =~= b);
        assert(esc(a) + esc(b) =~= esc(b));
    } else {
        let c = a.first();
        let head: Seq<char> = if c == '"' || c == '\\' {
            seq!['\\', c]
        } else {
            seq![c]
        };
        assert((a + b).first() == c);
        assert((a + b).drop_first() =~= a.drop_first() + b);
        lemma_esc_concat(a.drop_first(), b);
        assert(head + (esc(a.drop_first()) + esc(b)) =~= (head + esc(a.drop_first())) + esc(b));
    }
}

/// Relies on `String::push`: appends the one character to the end.
#[verifier::external_body]
fn push_char(s: &mut String, c: char)
    ensures
        final(s)@ == old(s)@.push(c),
{
    s.push(c);
}

/// Appends the wire escaping of `s` to `out`.
fn escape_into(out: &mut String, s: &str)
    ensures
        final(out)@ == old(out)@ + esc(s@),
{
    let n = s.unicode_len();
    let mut i: usize = 0;
    proof {
        assert(s@.take(0) =~= Seq::<char>::empty());
        assert(out@ + esc(s@.take(0)) =~= out@);
    }
    while i < n
        invariant
            n == s@.len(),
            i <= n,
            out@ == old(out)@ + esc(s@.take(i as int)),
        decreases n - i,
    {
        let c = s.get_char(i);
        if c == '"' || c == '\\' {
            push_char(out, '\\');
            push_char(out, c);
        } else {
            push_char(out, c);
        }
        proof {
            let cs = seq![s@[i as int]];
            let head: Seq<char> = if c == '"' || c == '\\' {
                seq!['\\', c]
            } else {
                seq![c]
            };
            assert(cs.first() == c && cs.drop_first() =~= Seq::<char>::empty());
            assert(esc(Seq::<char>::empty()) =~= Seq::<char>::empty());
            assert(esc(cs) == head + esc(cs.drop_first()));
            assert(esc(cs) =~= head);
            assert(s@.take(i as int + 1) =~= s@.take(i as int) + cs);
            lemma_esc_concat(s@.take(i as int), cs);
            assert(out@ =~= old(out)@ + esc(s@.take(i as int + 1)));
        }
        i = i + 1;
    }
    proof {
        assert(s@.take(n as int) =~= s@);
    }
}

/// The wire text of a mint message carrying the five string fields of an
/// item description.
pub open spec fn mint_json(
    name: Seq<char>,
    typ: Seq<char>,
    key: Seq<char>,
    value: Seq<char>,
    thumb: Seq<char>,
) -> Seq<char> {
    "{\"data\":{\"itemName\":\""@ + esc(name) + "\",\"itemType\":\""@ + esc(typ)
        + "\",\"attributes\":{\"key\":\""@ + esc(key) + "\",\"value\":\""@ + esc(value)
        + "\"},\"thumbNail\":\""@ + esc(thumb) + "\"},\"type\":\"mint-nft\"}"@
}

/// The wire text of the mint message for one item.
pub open spec fn mint_json_of(item: NFTItem) -> Seq<char> {
    mint_json(
        item.item_name@,
        item.item_type@,
        item.attributes.key@,
        item.attributes.value@,
        item.thumb_nail@,
    )
}

/// Encodes the mint command message for one item description.
pub fn encode_mint_message(item: &NFTItem) -> (r: String)
    ensures
        r@ == mint_json_of(*item),
{
    let mut out = String::new();
    out.append("{\"data\":{\"itemName\":\"");
    escape_into(&mut out, item.item_name.as_str());
    out.append("\",\"itemType\":\"");
    escape_into(&mut out, item.item_type.as_str());
    out.append("\",\"attributes\":{\"key\":\"");
    escape_into(&mut out, item.attributes.key.as_str());
    out.append("\",\"value\":\"");
    escape_into(&mut out, item.attributes.value.as_str());
    out.append("\"},\"thumbNail\":\"");
    escape_into(&mut out, item.thumb_nail.as_str());
    out.append("\"},\"type\":\"mint-nft\"}");
    proof {
        assert(out@ =~= mint_json_of(*item));
    }
    out
}

/// The characters the wire escaping marks with a backslash.
pub open spec fn escaped_char(c: char) -> bool {
    c == '"' || c == '\\'
}

/// How an escaped text starts: nothing for the empty text; a backslash and
/// the first character when that character is marked; the first character
/// itself otherwise. In particular an escaped text never starts with a bare
/// quote, which is what lets a scan find the closing quote of a string.
pub proof fn lemma_esc_head(a: Seq<char>)
    requires
        a.len() > 0,
    ensures
        escaped_char(a.first()) ==> esc(a) == seq!['\\', a.first()] + esc(a.drop_first()),
        escaped_char(a.first()) ==> esc(a).len() >= 2 && esc(a)[0] == '\\' && esc(a)[1]
            == a.first(),
        !escaped_char(a.first()) ==> esc(a) == seq![a.first()] + esc(a.drop_first()),
        !escaped_char(a.first()) ==> esc(a).len() >= 1 && esc(a)[0] == a.first(),
        esc(a)[0] != '"',
{
}

/// Two nonempty texts with the same head and the same tail are the same.
proof fn lemma_eq_parts(a: Seq<char>, b: Seq<char>)
    requires
        a.len() > 0,
        b.len() > 0,
        a.first() == b.first(),
        a.drop_first() == b.drop_first(),
    ensures
        a == b,
{
    assert(a.drop_first().len() == a.len() - 1);
    assert(b.drop_first().len() == b.len() - 1);
    assert(a.len() == b.len());
    assert forall|i: int| 1 <= i < a.len() implies a[i] == b[i] by {
        assert(a.drop_first()[i - 1] == a[i]);
        assert(b.drop_first()[i - 1] == b[i]);
    }
    assert(a =~= b);
}

/// A quote-terminated escaped string is unambiguous: if two escaped texts
/// followed by a closing quote and a remainder spell the same characters,
/// the texts and the remainders are the same.
pub proof fn lemma_esc_unambiguous(a: Seq<char>, b: Seq<char>, r1: Seq<char>, r2: Seq<char>)
    requires
        esc(a) + seq!['"'] + r1 == esc(b) + seq!['"'] + r2,
    ensures
        a == b,
        r1 == r2,
    decreases a.len(),
{
    let q = seq!['"'];
    let lhs = esc(a) + q + r1;
    let rhs = esc(b) + q + r2;
    if a.len() == 0 {
        assert(esc(a) =~= Seq::<char>::empty());
        assert(lhs[0] == '"');
        if b.len() > 0 {
            lemma_esc_head(b);
            assert(rhs[0] == esc(b)[0]);
            assert(false);
        }
        assert(esc(b) =~= Seq::<char>::empty());
        assert(a =~= b);
        assert(r1 =~= lhs.skip(1));
        assert(r2 =~= rhs.skip(1));
        assert(r1 =~= r2);
    } else {
        lemma_esc_head(a);
        if b.len() == 0 {
            assert(esc(b) =~= Seq::<char>::empty());
            assert(rhs[0] == '"');
            assert(lhs[0] == esc(a)[0]);
            assert(false);
        }
        lemma_esc_head(b);
        if escaped_char(a.first()) {
            if !escaped_char(b.first()) {
                assert(lhs[0] == '\\');
                assert(rhs[0] == b.first());
                assert(false);
            }
            assert(lhs[1] == a.first());
            assert(rhs[1] == b.first());
            assert(lhs.skip(2) =~= esc(a.drop_first()) + q + r1);
            assert(rhs.skip(2) =~= esc(b.drop_first()) + q + r2);
            lemma_esc_unambiguous(a.drop_first(), b.drop_first(), r1, r2);
            lemma_eq_parts(a, b);
        } else {
            if escaped_char(b.first()) {
                assert(rhs[0] == '\\');
                assert(lhs[0] == a.first());
                assert(false);
            }
            assert(lhs[0] == a.first());
            assert(rhs[0] == b.first());
            assert(lhs.skip(1) =~= esc(a.drop_first()) + q + r1);
            assert(rhs.skip(1) =~= esc(b.drop_first()) + q + r2);
            lemma_esc_unambiguous(a.drop_first(), b.drop_first(), r1, r2);
            lemma_eq_parts(a, b);
        }
    }
}

/// Law: the mint wire encoding is lossless. The message text determines the
/// five string fields of the item it carries, so the item a delivered
/// message decodes to is exactly the item that was submitted for minting.
#[verifier::rlimit(100)]
pub proof fn lemma_mint_json_injective(
    a1: Seq<char>, b1: Seq<char>, c1: Seq<char>, d1: Seq<char>, e1: Seq<char>,
    a2: Seq<char>, b2: Seq<char>, c2: Seq<char>, d2: Seq<char>, e2: Seq<char>,
)
    requires
        mint_json(a1, b1, c1, d1, e1) == mint_json(a2, b2, c2, d2, e2),
    ensures
        a1 == a2 && b1 == b2 && c1 == c2 && d1 == d2 && e1 == e2,
{
    let q = seq!['"'];
    lemma_mint_shape(a1, b1, c1, d1, e1);
    lemma_mint_shape(a2, b2, c2, d2, e2);
    let s = mint_json(a1, b1, c1, d1, e1);
    let p0 = "{\"data\":{\"itemName\":\""@;
    assert(esc(a1) + q + after_name(b1, c1, d1, e1) =~= s.skip(p0.len() as int));
    assert(esc(a2) + q + after_name(b2, c2, d2, e2) =~= s.skip(p0.len() as int));
    lemma_esc_unambiguous(a1, a2, after_name(b1, c1, d1, e1), after_name(b2, c2, d2, e2));
    let t1 = after_name(b1, c1, d1, e1);
    let l1 = ",\"itemType\":\""@;
    assert(esc(b1) + q + after_type(c1, d1, e1) =~= t1.skip(l1.len() as int));
    assert(esc(b2) + q + after_type(c2, d2, e2) =~= t1.skip(l1.len() as int));
    lemma_esc_unambiguous(b1, b2, after_type(c1, d1, e1), after_type(c2, d2, e2));
    let t2 = after_type(c1, d1, e1);
    let l2 = ",\"attributes\":{\"key\":\""@;
    assert(esc(c1) + q + after_key(d1, e1) =~= t2.skip(l2.len() as int));
    assert(esc(c2) + q + after_key(d2, e2) =~= t2.skip(l2.len() as int));
    lemma_esc_unambiguous(c1, c2, after_key(d1, e1), after_key(d2, e2));
    let t3 = after_key(d1, e1);
    let l3 = ",\"value\":\""@;
    assert(esc(d1) + q + after_value(e1) =~= t3.skip(l3.len() as int));
    assert(esc(d2) + q + after_value(e2) =~= t3.skip(l3.len() as int));
    lemma_esc_unambiguous(d1, d2, after_value(e1), after_value(e2));
    let t4 = after_value(e1);
    let l4 = "},\"thumbNail\":\""@;
    let l5 = "},\"type\":\"mint-nft\"}"@;
    assert(esc(e1) + q + l5 =~= t4.skip(l4.len() as int));
    assert(esc(e2) + q + l5 =~= t4.skip(l4.len() as int));
    lemma_esc_unambiguous(e1, e2, l5, l5);
}

/// Matches the given literal at position `i` of `s`, returning the position
/// after it exactly when the literal stands there in full.
fn expect_lit(s: &str, n: usize, i: usize, lit: &str) -> (r: Option<usize>)
    requires
        n == s@.len(),
        i <= n,
    ensures
        match r {
            Some(j) => i + lit@.len() == j && j <= n && s@.subrange(i as int, j as int) == lit@,
            None => !(i + lit@.len() <= n && s@.subrange(
                i as int,
                i as int + lit@.len() as int,
            ) == lit@),
        },
{
    let m = lit.unicode_len();
    if m > n - i {
        return None;
    }
    let mut k: usize = 0;
    while k < m
        invariant
            m == lit@.len(),
            n == s@.len(),
            i + m <= n,
            k <= m,
            forall|t: int| 0 <= t < k ==> s@[i as int + t] == lit@[t],
        decreases m - k,
    {
        if s.get_char(i + k) != lit.get_char(k) {
            proof {
                assert(s@.subrange(i as int, i as int + m as int)[k as int] == s@[i as int
                    + k as int]);
            }
            return None;
        }
        k = k + 1;
    }
    proof {
        assert(s@.subrange(i as int, (i + m) as int) =~= lit@);
    }
    Some(i + m)
}

/// Scans one escaped string starting at position `i`, up to and through its
/// closing quote. Exact: it succeeds on precisely the texts the escaping
/// produces followed by a quote, undoing the escaping, and its result pins
/// down both the string and where the remainder starts.
#[verifier::rlimit(60)]
fn parse_string(s: &str, n: usize, i: usize) -> (r: Option<(String, usize)>)
    requires
        n == s@.len(),
        i <= n,
    ensures
        match r {
            Some(p) => {
                &&& i <= p.1 <= n
                &&& s@.subrange(i as int, p.1 as int) == esc(p.0@).push('"')
                &&& forall|a: Seq<char>, rest: Seq<char>| #![trigger esc(a) + seq!['"'] + rest]
                    s@.skip(i as int) == esc(a) + seq!['"'] + rest ==> a == p.0@ && rest == s@.skip(
                        p.1 as int,
                    )
            },
            None => forall|a: Seq<char>, rest: Seq<char>| #![trigger esc(a) + seq!['"'] + rest]
                s@.skip(i as int) != esc(a) + seq!['"'] + rest,
        },
{
    let mut out = String::new();
    let mut j = i;
    proof {
        assert(s@.subrange(i as int, i as int) =~= Seq::<char>::empty());
        assert(esc(out@) =~= Seq::<char>::empty());
        assert forall|a: Seq<char>, rest: Seq<char>| #![trigger esc(a) + seq!['"'] + rest]
            s@.skip(i as int) == esc(a) + seq!['"'] + rest implies out@.len() <= a.len() && a.take(
            out@.len() as int,
        ) == out@ && s@.skip(j as int) == esc(a.skip(out@.len() as int)) + seq!['"'] + rest by {
            assert(a.take(0) =~= out@);
            assert(a.skip(0) =~= a);
        }
    }
    while j < n
        invariant
            n == s@.len(),
            i <= j <= n,
            s@.subrange(i as int, j as int) == esc(out@),
            forall|a: Seq<char>, rest: Seq<char>| #![trigger esc(a) + seq!['"'] + rest]
                s@.skip(i as int) == esc(a) + seq!['"'] + rest ==> out@.len() <= a.len()
                    && a.take(out@.len() as int) == out@ && s@.skip(j as int) == esc(
                    a.skip(out@.len() as int),
                ) + seq!['"'] + rest,
        decreases n - j,
    {
        let c = s.get_char(j);
        if c == '"' {
            proof {
                assert(s@.subrange(i as int, j as int + 1) =~= s@.subrange(i as int, j as int)
                    + seq![s@[j as int]]);
                assert(s@.subrange(i as int, j as int + 1) =~= esc(out@).push('"'));
                assert forall|a: Seq<char>, rest: Seq<char>| #![trigger esc(a) + seq!['"'] + rest]
                    s@.skip(i as int) == esc(a) + seq!['"'] + rest implies a == out@ && rest
                    == s@.skip(j as int + 1) by {
                    let k = out@.len() as int;
                    let a2 = a.skip(k);
                    assert(s@.skip(j as int) == esc(a2) + seq!['"'] + rest);
                    assert(s@.skip(j as int)[0] == s@[j as int]);
                    if a2.len() > 0 {
                        lemma_esc_head(a2);
                        assert(s@.skip(j as int)[0] == esc(a2)[0]);
                        assert(false);
                    }
                    assert(esc(a2) =~= Seq::<char>::empty());
                    assert(a.take(k) =~= a);
                    assert(rest =~= s@.skip(j as int).drop_first());
                    assert(s@.skip(j as int).drop_first() =~= s@.skip(j as int + 1));
                }
            }
            return Some((out, j + 1));
        } else if c == '\\' {
            if j + 1 < n {
                let c2 = s.get_char(j + 1);
                if c2 == '"' || c2 == '\\' {
                    proof {
                        let k = out@.len() as int;
                        assert(seq![c2].first() == c2 && seq![c2].drop_first() =~= Seq::<
                            char,
                        >::empty());
                        assert(esc(Seq::<char>::empty()) == Seq::<char>::empty());
                        assert(esc(seq![c2]) =~= seq!['\\', c2]);
                        assert(out@.push(c2) =~= out@ + seq![c2]);
                        lemma_esc_concat(out@, seq![c2]);
                        assert(esc(out@.push(c2)) =~= esc(out@) + seq!['\\', c2]);
                        assert(s@.subrange(i as int, j as int + 2) =~= s@.subrange(
                            i as int,
                            j as int,
                        ) + seq![s@[j as int], s@[j as int + 1]]);
                        assert(s@.subrange(i as int, j as int + 2) =~= esc(out@.push(c2)));
                        assert forall|a: Seq<char>, rest: Seq<char>| #![trigger esc(a) + seq!['"'] + rest]
                            s@.skip(i as int) == esc(a) + seq!['"'] + rest implies out@.push(
                            c2,
                        ).len() <= a.len() && a.take(k + 1) == out@.push(c2) && s@.skip(
                            j as int + 2,
                        ) == esc(a.skip(k + 1)) + seq!['"'] + rest by {
                            let a2 = a.skip(k);
                            assert(s@.skip(j as int) == esc(a2) + seq!['"'] + rest);
                            assert(s@.skip(j as int)[0] == s@[j as int]);
                            if a2.len() == 0 {
                                assert(esc(a2) =~= Seq::<char>::empty());
                                assert(s@.skip(j as int)[0] == '"');
                                assert(false);
                            }
                            lemma_esc_head(a2);
                            if !escaped_char(a2.first()) {
                                assert(s@.skip(j as int)[0] == esc(a2)[0]);
                                assert(false);
                            }
                            assert(s@.skip(j as int)[1] == esc(a2)[1]);
                            assert(s@.skip(j as int)[1] == s@[j as int + 1]);
                            assert(a2.first() == c2);
                            assert(a[k] == a2.first());
                            assert(a.take(k + 1) =~= a.take(k) + seq![a[k]]);
                            assert(a.take(k + 1) =~= out@.push(c2));
                            assert(a2.drop_first() =~= a.skip(k + 1));
                            assert(s@.skip(j as int) =~= seq!['\\', c2] + (esc(a2.drop_first())
                                + seq!['"'] + rest));
                            assert(s@.skip(j as int + 2) =~= s@.skip(j as int).skip(2));
                            assert(s@.skip(j as int).skip(2) =~= esc(a.skip(k + 1)) + seq!['"']
                                + rest);
                        }
                    }
                    push_char(&mut out, c2);
                    j = j + 2;
                } else {
                    proof {
                        assert forall|a: Seq<char>, rest: Seq<char>| #![trigger esc(a) + seq!['"'] + rest]
                            s@.skip(i as int) != esc(a) + seq!['"'] + rest by {
                            if s@.skip(i as int) == esc(a) + seq!['"'] + rest {
                                let k = out@.len() as int;
                                let a2 = a.skip(k);
                                assert(s@.skip(j as int) == esc(a2) + seq!['"'] + rest);
                                assert(s@.skip(j as int)[0] == s@[j as int]);
                                if a2.len() == 0 {
                                    assert(esc(a2) =~= Seq::<char>::empty());
                                    assert(s@.skip(j as int)[0] == '"');
                                    assert(false);
                                }
                                lemma_esc_head(a2);
                                if !escaped_char(a2.first()) {
                                    assert(s@.skip(j as int)[0] == esc(a2)[0]);
                                    assert(false);
                                }
                                assert(s@.skip(j as int)[1] == esc(a2)[1]);
                                assert(s@.skip(j as int)[1] == s@[j as int + 1]);
                                assert(escaped_char(s@[j as int + 1]));
                                assert(false);
                            }
                        }
                    }
                    return None;
                }
            } else {
                proof {
                    assert forall|a: Seq<char>, rest: Seq<char>| #![trigger esc(a) + seq!['"'] + rest]
                        s@.skip(i as int) != esc(a) + seq!['"'] + rest by {
                        if s@.skip(i as int) == esc(a) + seq!['"'] + rest {
                            let k = out@.len() as int;
                            let a2 = a.skip(k);
                            assert(s@.skip(j as int) == esc(a2) + seq!['"'] + rest);
                            assert(s@.skip(j as int).len() == 1);
                            assert(s@.skip(j as int)[0] == s@[j as int]);
                            if a2.len() == 0 {
                                assert(esc(a2) =~= Seq::<char>::empty());
                                assert(s@.skip(j as int)[0] == '"');
                                assert(false);
                            }
                            lemma_esc_head(a2);
                            if !escaped_char(a2.first()) {
                                assert(s@.skip(j as int)[0] == esc(a2)[0]);
                                assert(false);
                            }
                            assert(s@.skip(j as int).len() >= esc(a2).len() + 1);
                            assert(false);
                        }
                    }
                }
                return None;
            }
        } else {
            proof {
                let k = out@.len() as int;
                assert(seq![c].first() == c && seq![c].drop_first() =~= Seq::<char>::empty());
                assert(esc(Seq::<char>::empty()) == Seq::<char>::empty());
                assert(esc(seq![c]) =~= seq![c]);
                assert(out@.push(c) =~= out@ + seq![c]);
                lemma_esc_concat(out@, seq![c]);
                assert(esc(out@.push(c)) =~= esc(out@) + seq![c]);
                assert(s@.subrange(i as int, j as int + 1) =~= s@.subrange(i as int, j as int)
                    + seq![s@[j as int]]);
                assert(s@.subrange(i as int, j as int + 1) =~= esc(out@.push(c)));
                assert forall|a: Seq<char>, rest: Seq<char>| #![trigger esc(a) + seq!['"'] + rest]
                    s@.skip(i as int) == esc(a) + seq!['"'] + rest implies out@.push(c).len()
                    <= a.len() && a.take(k + 1) == out@.push(c) && s@.skip(j as int + 1) == esc(
                    a.skip(k + 1),
                ) + seq!['"'] + rest by {
                    let a2 = a.skip(k);
                    assert(s@.skip(j as int) == esc(a2) + seq!['"'] + rest);
                    assert(s@.skip(j as int)[0] == s@[j as int]);
                    if a2.len() == 0 {
                        assert(esc(a2) =~= Seq::<char>::empty());
                        assert(s@.skip(j as int)[0] == '"');
                        assert(false);
                    }
                    lemma_esc_head(a2);
                    if escaped_char(a2.first()) {
                        assert(s@.skip(j as int)[0] == esc(a2)[0]);
                        assert(false);
                    }
                    assert(s@.skip(j as int)[0] == esc(a2)[0]);
                    assert(a2.first() == c);
                    assert(a[k] == a2.first());
                    assert(a.take(k + 1) =~= a.take(k) + seq![a[k]]);
                    assert(a.take(k + 1) =~= out@.push(c));
                    assert(a2.drop_first() =~= a.skip(k + 1));
                    assert(s@.skip(j as int) =~= seq![c] + (esc(a2.drop_first()) + seq!['"']
                        + rest));
                    assert(s@.skip(j as int + 1) =~= s@.skip(j as int).skip(1));
                    assert(s@.skip(j as int).skip(1) =~= esc(a.skip(k + 1)) + seq!['"'] + rest);
                }
            }
            push_char(&mut out, c);
            j = j + 1;
        }
    }
    proof {
        assert forall|a: Seq<char>, rest: Seq<char>| #![trigger esc(a) + seq!['"'] + rest]
            s@.skip(i as int) != esc(a) + seq!['"'] + rest by {
            if s@.skip(i as int) == esc(a) + seq!['"'] + rest {
                let k = out@.len() as int;
                let a2 = a.skip(k);
                assert(s@.skip(j as int) == esc(a2) + seq!['"'] + rest);
                assert(s@.skip(j as int).len() == 0);
                assert(false);
            }
        }
    }
    None
}

/// The wire text that follows the closing quote of the item name.
pub open spec fn after_name(b: Seq<char>, c: Seq<char>, d: Seq<char>, e: Seq<char>) -> Seq<char> {
    ",\"itemType\":\""@ + esc(b) + seq!['"'] + after_type(c, d, e)
}

/// The wire text that follows the closing quote of the item type.
pub open spec fn after_type(c: Seq<char>, d: Seq<char>, e: Seq<char>) -> Seq<char> {
    ",\"attributes\":{\"key\":\""@ + esc(c) + seq!['"'] + after_key(d, e)
}

/// The wire text that follows the closing quote of the attribute key.
pub open spec fn after_key(d: Seq<char>, e: Seq<char>) -> Seq<char> {
    ",\"value\":\""@ + esc(d) + seq!['"'] + after_value(e)
}

/// The wire text that follows the closing quote of the attribute value.
pub open spec fn after_value(e: Seq<char>) -> Seq<char> {
    "},\"thumbNail\":\""@ + esc(e) + seq!['"'] + "},\"type\":\"mint-nft\"}"@
}

/// The mint message split at the closing quote of its first string: the same
/// text as `mint_json`, regrouped the way the decoder consumes it.
pub proof fn lemma_mint_shape(a: Seq<char>, b: Seq<char>, c: Seq<char>, d: Seq<char>, e: Seq<char>)
    ensures
        mint_json(a, b, c, d, e) == "{\"data\":{\"itemName\":\""@ + esc(a) + seq!['"']
            + after_name(b, c, d, e),
{
    reveal_strlit("\",\"itemType\":\"");
    reveal_strlit(",\"itemType\":\"");
    reveal_strlit("\",\"attributes\":{\"key\":\"");
    reveal_strlit(",\"attributes\":{\"key\":\"");
    reveal_strlit("\",\"value\":\"");
    reveal_strlit(",\"value\":\"");
    reveal_strlit("\"},\"thumbNail\":\"");
    reveal_strlit("},\"thumbNail\":\"");
    reveal_strlit("\"},\"type\":\"mint-nft\"}");
    reveal_strlit("},\"type\":\"mint-nft\"}");
    assert("\",\"itemType\":\""@ =~= seq!['"'] + ",\"itemType\":\""@);
    assert("\",\"attributes\":{\"key\":\""@ =~= seq!['"'] + ",\"attributes\":{\"key\":\""@);
    assert("\",\"value\":\""@ =~= seq!['"'] + ",\"value\":\""@);
    assert("\"},\"thumbNail\":\""@ =~= seq!['"'] + "},\"thumbNail\":\""@);
    assert("\"},\"type\":\"mint-nft\"}"@ =~= seq!['"'] + "},\"type\":\"mint-nft\"}"@);
    assert(mint_json(a, b, c, d, e) =~= "{\"data\":{\"itemName\":\""@ + esc(a) + seq!['"']
        + after_name(b, c, d, e));
}

/// Whether a text is the mint message of some item description.
pub open spec fn is_mint_text(s: Seq<char>) -> bool {
    exists|a: Seq<char>, b: Seq<char>, c: Seq<char>, d: Seq<char>, e: Seq<char>|
        s == #[trigger] mint_json(a, b, c, d, e)
}

/// Joining two adjacent matched slices of a text matches their
/// concatenation.
proof fn lemma_concat_split(s: Seq<char>, i: int, j: int, k: int, x: Seq<char>, y: Seq<char>)
    requires
        0 <= i <= j <= k <= s.len(),
        s.subrange(i, j) == x,
        s.subrange(j, k) == y,
    ensures
        s.subrange(i, k) == x + y,
{
    assert(s.subrange(i, k) =~= x + y);
}

/// Reassembles a fully consumed input from the pieces the decoder matched:
/// the input is exactly the mint message of the five strings it found.
#[verifier::rlimit(100)]
proof fn lemma_mint_assemble(
    s: Seq<char>,
    i0: int, i1: int, i2: int, i3: int, i4: int,
    i5: int, i6: int, i7: int, i8: int, i9: int, i10: int,
    name: Seq<char>, typ: Seq<char>, key: Seq<char>, value: Seq<char>, thumb: Seq<char>,
)
    requires
        0 <= i0 <= i1 <= i2 <= i3 <= i4 <= i5 <= i6 <= i7 <= i8 <= i9 <= i10 == s.len(),
        s.subrange(0, i0) == "{\"data\":{\"itemName\":\""@,
        s.subrange(i0, i1) == esc(name).push('"'),
        s.subrange(i1, i2) == ",\"itemType\":\""@,
        s.subrange(i2, i3) == esc(typ).push('"'),
        s.subrange(i3, i4) == ",\"attributes\":{\"key\":\""@,
        s.subrange(i4, i5) == esc(key).push('"'),
        s.subrange(i5, i6) == ",\"value\":\""@,
        s.subrange(i6, i7) == esc(value).push('"'),
        s.subrange(i7, i8) == "},\"thumbNail\":\""@,
        s.subrange(i8, i9) == esc(thumb).push('"'),
        s.subrange(i9, i10) == "},\"type\":\"mint-nft\"}"@,
    ensures
        s == mint_json(name, typ, key, value, thumb),
{
    reveal_strlit("\",\"itemType\":\"");
    reveal_strlit(",\"itemType\":\"");
    reveal_strlit("\",\"attributes\":{\"key\":\"");
    reveal_strlit(",\"attributes\":{\"key\":\"");
    reveal_strlit("\",\"value\":\"");
    reveal_strlit(",\"value\":\"");
    reveal_strlit("\"},\"thumbNail\":\"");
    reveal_strlit("},\"thumbNail\":\"");
    reveal_strlit("\"},\"type\":\"mint-nft\"}");
    reveal_strlit("},\"type\":\"mint-nft\"}");
    lemma_concat_split(s, i0, i1, i2, esc(name).push('"'), ",\"itemType\":\""@);
    assert(esc(name).push('"') + ",\"itemType\":\""@ =~= esc(name) + "\",\"itemType\":\""@);
    lemma_concat_split(s, i2, i3, i4, esc(typ).push('"'), ",\"attributes\":{\"key\":\""@);
    assert(esc(typ).push('"') + ",\"attributes\":{\"key\":\""@ =~= esc(typ) + "\",\"attributes\":{\"key\":\""@);
    lemma_concat_split(s, i4, i5, i6, esc(key).push('"'), ",\"value\":\""@);
    assert(esc(key).push('"') + ",\"value\":\""@ =~= esc(key) + "\",\"value\":\""@);
    lemma_concat_split(s, i6, i7, i8, esc(value).push('"'), "},\"thumbNail\":\""@);
    assert(esc(value).push('"') + "},\"thumbNail\":\""@ =~= esc(value) + "\"},\"thumbNail\":\""@);
    lemma_concat_split(s, i8, i9, i10, esc(thumb).push('"'), "},\"type\":\"mint-nft\"}"@);
    assert(esc(thumb).push('"') + "},\"type\":\"mint-nft\"}"@ =~= esc(thumb) + "\"},\"type\":\"mint-nft\"}"@);
    lemma_concat_split(s, 0, i0, i2, "{\"data\":{\"itemName\":\""@, esc(name) + "\",\"itemType\":\""@);
    assert("{\"data\":{\"itemName\":\""@ + (esc(name) + "\",\"itemType\":\""@) =~= "{\"data\":{\"itemName\":\""@ + esc(name) + "\",\"itemType\":\""@);
    lemma_concat_split(s, 0, i2, i4, "{\"data\":{\"itemName\":\""@ + esc(name) + "\",\"itemType\":\""@, esc(typ) + "\",\"attributes\":{\"key\":\""@);
    assert("{\"data\":{\"itemName\":\""@ + esc(name) + "\",\"itemType\":\""@ + (esc(typ) + "\",\"attributes\":{\"key\":\""@) =~= "{\"data\":{\"itemName\":\""@ + esc(name) + "\",\"itemType\":\""@ + esc(typ) + "\",\"attributes\":{\"key\":\""@);
    lemma_concat_split(s, 0, i4, i6, "{\"data\":{\"itemName\":\""@ + esc(name) + "\",\"itemType\":\""@ + esc(typ) + "\",\"attributes\":{\"key\":\""@, esc(key) + "\",\"value\":\""@);
    assert("{\"data\":{\"itemName\":\""@ + esc(name) + "\",\"itemType\":\""@ + esc(typ) + "\",\"attributes\":{\"key\":\""@ + (esc(key) + "\",\"value\":\""@) =~= "{\"data\":{\"itemName\":\""@ + esc(name) + "\",\"itemType\":\""@ + esc(typ) + "\",\"attributes\":{\"key\":\""@ + esc(key) + "\",\"value\":\""@);
    lemma_concat_split(s, 0, i6, i8, "{\"data\":{\"itemName\":\""@ + esc(name) + "\",\"itemType\":\""@ + esc(typ) + "\",\"attributes\":{\"key\":\""@ + esc(key) + "\",\"value\":\""@, esc(value) + "\"},\"thumbNail\":\""@);
    assert("{\"data\":{\"itemName\":\""@ + esc(name) + "\",\"itemType\":\""@ + esc(typ) + "\",\"attributes\":{\"key\":\""@ + esc(key) + "\",\"value\":\""@ + (esc(value) + "\"},\"thumbNail\":\""@) =~= "{\"data\":{\"itemName\":\""@ + esc(name) + "\",\"itemType\":\""@ + esc(typ) + "\",\"attributes\":{\"key\":\""@ + esc(key) + "\",\"value\":\""@ + esc(value) + "\"},\"thumbNail\":\""@);
    lemma_concat_split(s, 0, i8, i10, "{\"data\":{\"itemName\":\""@ + esc(name) + "\",\"itemType\":\""@ + esc(typ) + "\",\"attributes\":{\"key\":\""@ + esc(key) + "\",\"value\":\""@ + esc(value) + "\"},\"thumbNail\":\""@, esc(thumb) + "\"},\"type\":\"mint-nft\"}"@);
    assert("{\"data\":{\"itemName\":\""@ + esc(name) + "\",\"itemType\":\""@ + esc(typ) + "\",\"attributes\":{\"key\":\""@ + esc(key) + "\",\"value\":\""@ + esc(value) + "\"},\"thumbNail\":\""@ + (esc(thumb) + "\"},\"type\":\"mint-nft\"}"@) =~= "{\"data\":{\"itemName\":\""@ + esc(name) + "\",\"itemType\":\""@ + esc(typ) + "\",\"attributes\":{\"key\":\""@ + esc(key) + "\",\"value\":\""@ + esc(value) + "\"},\"thumbNail\":\""@ + esc(thumb) + "\"},\"type\":\"mint-nft\"}"@);
    assert(s =~= s.subrange(0, i10));
}

/// Decodes a mint command message back to the item description it carries.
/// Exact in both directions: it succeeds on precisely the texts the encoder
/// produces, returning an item that encodes back to the input, and any item
/// whose message equals the input has exactly the fields returned.
#[verifier::rlimit(100)]
pub fn decode_mint_message(s: &str) -> (r: Option<NFTItem>)
    ensures
        match r {
            Some(item) => s@ == mint_json_of(item) && (forall|a: Seq<char>, b: Seq<char>, c: Seq<char>, d: Seq<char>, e: Seq<char>|
                s@ == #[trigger] mint_json(a, b, c, d, e) ==> a == item.item_name@ && b == item.item_type@
                    && c == item.attributes.key@ && d == item.attributes.value@ && e == item.thumb_nail@),
            None => !is_mint_text(s@),
        },
{
    let n = s.unicode_len();
    let i0 = match expect_lit(s, n, 0, "{\"data\":{\"itemName\":\"") {
        Some(i) => i,
        None => {
            proof {
                assert(!is_mint_text(s@)) by {
                    if is_mint_text(s@) {
                        let (a, b, c, d, e) = choose|a: Seq<char>, b: Seq<char>, c: Seq<char>, d: Seq<char>, e: Seq<char>| s@ == #[trigger] mint_json(a, b, c, d, e);
                        lemma_mint_shape(a, b, c, d, e);
                        assert(s@.subrange(0, "{\"data\":{\"itemName\":\""@.len() as int) =~= "{\"data\":{\"itemName\":\""@);
                        assert(false);
                    }
                }
            }
            return None;
        },
    };
    proof {
        assert forall|a: Seq<char>, b: Seq<char>, c: Seq<char>, d: Seq<char>, e: Seq<char>|
            s@ == #[trigger] mint_json(a, b, c, d, e) implies s@.skip(i0 as int) == esc(a) + seq!['"'] + after_name(b, c, d, e) by {
            lemma_mint_shape(a, b, c, d, e);
            assert(s@.skip(i0 as int) =~= esc(a) + seq!['"'] + after_name(b, c, d, e));
        }
    }
    let (name, i1) = match parse_string(s, n, i0) {
        Some(p) => p,
        None => {
            proof {
                assert(!is_mint_text(s@)) by {
                    if is_mint_text(s@) {
                        let (a, b, c, d, e) = choose|a: Seq<char>, b: Seq<char>, c: Seq<char>, d: Seq<char>, e: Seq<char>| s@ == #[trigger] mint_json(a, b, c, d, e);
                        assert(false);
                    }
                }
            }
            return None;
        },
    };
    proof {
        assert forall|a: Seq<char>, b: Seq<char>, c: Seq<char>, d: Seq<char>, e: Seq<char>|
            s@ == #[trigger] mint_json(a, b, c, d, e) implies a == name@ && s@.skip(i1 as int) == after_name(b, c, d, e) by {
        }
    }
    let i2 = match expect_lit(s, n, i1, ",\"itemType\":\"") {
        Some(i) => i,
        None => {
            proof {
                assert(!is_mint_text(s@)) by {
                    if is_mint_text(s@) {
                        let (a, b, c, d, e) = choose|a: Seq<char>, b: Seq<char>, c: Seq<char>, d: Seq<char>, e: Seq<char>| s@ == #[trigger] mint_json(a, b, c, d, e);
                        assert(s@.skip(i1 as int) == ",\"itemType\":\""@ + (esc(b) + seq!['"'] + after_type(c, d, e)));
                        assert(i1 as int + ",\"itemType\":\""@.len() <= s@.len());
                        assert(s@.subrange(i1 as int, i1 as int + ",\"itemType\":\""@.len() as int) =~= s@.skip(i1 as int).subrange(0, ",\"itemType\":\""@.len() as int));
                        assert((",\"itemType\":\""@ + (esc(b) + seq!['"'] + after_type(c, d, e))).subrange(0, ",\"itemType\":\""@.len() as int) =~= ",\"itemType\":\""@);
                        assert(s@.subrange(i1 as int, i1 as int + ",\"itemType\":\""@.len() as int) =~= ",\"itemType\":\""@);
                        assert(false);
                    }
                }
            }
            return None;
        },
    };
    proof {
        assert forall|a: Seq<char>, b: Seq<char>, c: Seq<char>, d: Seq<char>, e: Seq<char>|
            s@ == #[trigger] mint_json(a, b, c, d, e) implies s@.skip(i2 as int) == esc(b) + seq!['"'] + after_type(c, d, e) by {
            assert(s@.skip(i1 as int) == ",\"itemType\":\""@ + (esc(b) + seq!['"'] + after_type(c, d, e)));
            assert(s@.skip(i2 as int) =~= s@.skip(i1 as int).skip(",\"itemType\":\""@.len() as int));
            assert((",\"itemType\":\""@ + (esc(b) + seq!['"'] + after_type(c, d, e))).skip(",\"itemType\":\""@.len() as int) =~= esc(b) + seq!['"'] + after_type(c, d, e));
            assert(s@.skip(i2 as int) =~= esc(b) + seq!['"'] + after_type(c, d, e));
        }
    }
    let (typ, i3) = match parse_string(s, n, i2) {
        Some(p) => p,
        None => {
            proof {
                assert(!is_mint_text(s@)) by {
                    if is_mint_text(s@) {
                        let (a, b, c, d, e) = choose|a: Seq<char>, b: Seq<char>, c: Seq<char>, d: Seq<char>, e: Seq<char>| s@ == #[trigger] mint_json(a, b, c, d, e);
                        assert(false);
                    }
                }
            }
            return None;
        },
    };
    proof {
        assert forall|a: Seq<char>, b: Seq<char>, c: Seq<char>, d: Seq<char>, e: Seq<char>|
            s@ == #[trigger] mint_json(a, b, c, d, e) implies b == typ@ && s@.skip(i3 as int) == after_type(c, d, e) by {
        }
    }
    let i4 = match expect_lit(s, n, i3, ",\"attributes\":{\"key\":\"") {
        Some(i) => i,
        None => {
            proof {
                assert(!is_mint_text(s@)) by {
                    if is_mint_text(s@) {
                        let (a, b, c, d, e) = choose|a: Seq<char>, b: Seq<char>, c: Seq<char>, d: Seq<char>, e: Seq<char>| s@ == #[trigger] mint_json(a, b, c, d, e);
                        assert(s@.skip(i3 as int) == ",\"attributes\":{\"key\":\""@ + (esc(c) + seq!['"'] + after_key(d, e)));
                        assert(i3 as int + ",\"attributes\":{\"key\":\""@.len() <= s@.len());
                        assert(s@.subrange(i3 as int, i3 as int + ",\"attributes\":{\"key\":\""@.len() as int) =~= s@.skip(i3 as int).subrange(0, ",\"attributes\":{\"key\":\""@.len() as int));
                        assert((",\"attributes\":{\"key\":\""@ + (esc(c) + seq!['"'] + after_key(d, e))).subrange(0, ",\"attributes\":{\"key\":\""@.len() as int) =~= ",\"attributes\":{\"key\":\""@);
                        assert(s@.subrange(i3 as int, i3 as int + ",\"attributes\":{\"key\":\""@.len() as int) =~= ",\"attributes\":{\"key\":\""@);
                        assert(false);
                    }
                }
            }
            return None;
        },
    };
    proof {
        assert forall|a: Seq<char>, b: Seq<char>, c: Seq<char>, d: Seq<char>, e: Seq<char>|
            s@ == #[trigger] mint_json(a, b, c, d, e) implies s@.skip(i4 as int) == esc(c) + seq!['"'] + after_key(d, e) by {
            assert(s@.skip(i3 as int) == ",\"attributes\":{\"key\":\""@ + (esc(c) + seq!['"'] + after_key(d, e)));
            assert(s@.skip(i4 as int) =~= s@.skip(i3 as int).skip(",\"attributes\":{\"key\":\""@.len() as int));
            assert((",\"attributes\":{\"key\":\""@ + (esc(c) + seq!['"'] + after_key(d, e))).skip(",\"attributes\":{\"key\":\""@.len() as int) =~= esc(c) + seq!['"'] + after_key(d, e));
            assert(s@.skip(i4 as int) =~= esc(c) + seq!['"'] + after_key(d, e));
        }
    }
    let (key, i5) = match parse_string(s, n, i4) {
        Some(p) => p,
        None => {
            proof {
                assert(!is_mint_text(s@)) by {
                    if is_mint_text(s@) {
                        let (a, b, c, d, e) = choose|a: Seq<char>, b: Seq<char>, c: Seq<char>, d: Seq<char>, e: Seq<char>| s@ == #[trigger] mint_json(a, b, c, d, e);
                        assert(false);
                    }
                }
            }
            return None;
        },
    };
    proof {
        assert forall|a: Seq<char>, b: Seq<char>, c: Seq<char>, d: Seq<char>, e: Seq<char>|
            s@ == #[trigger] mint_json(a, b, c, d, e) implies c == key@ && s@.skip(i5 as int) == after_key(d, e) by {
        }
    }
    let i6 = match expect_lit(s, n, i5, ",\"value\":\"") {
        Some(i) => i,
        None => {
            proof {
                assert(!is_mint_text(s@)) by {
                    if is_mint_text(s@) {
                        let (a, b, c, d, e) = choose|a: Seq<char>, b: Seq<char>, c: Seq<char>, d: Seq<char>, e: Seq<char>| s@ == #[trigger] mint_json(a, b, c, d, e);
                        assert(s@.skip(i5 as int) == ",\"value\":\""@ + (esc(d) + seq!['"'] + after_value(e)));
                        assert(i5 as int + ",\"value\":\""@.len() <= s@.len());
                        assert(s@.subrange(i5 as int, i5 as int + ",\"value\":\""@.len() as int) =~= s@.skip(i5 as int).subrange(0, ",\"value\":\""@.len() as int));
                        assert((",\"value\":\""@ + (esc(d) + seq!['"'] + after_value(e))).subrange(0, ",\"value\":\""@.len() as int) =~= ",\"value\":\""@);
                        assert(s@.subrange(i5 as int, i5 as int + ",\"value\":\""@.len() as int) =~= ",\"value\":\""@);
                        assert(false);
                    }
                }
            }
            return None;
        },
    };
    proof {
        assert forall|a: Seq<char>, b: Seq<char>, c: Seq<char>, d: Seq<char>, e: Seq<char>|
            s@ == #[trigger] mint_json(a, b, c, d, e) implies s@.skip(i6 as int) == esc(d) + seq!['"'] + after_value(e) by {
            assert(s@.skip(i5 as int) == ",\"value\":\""@ + (esc(d) + seq!['"'] + after_value(e)));
            assert(s@.skip(i6 as int) =~= s@.skip(i5 as int).skip(",\"value\":\""@.len() as int));
            assert((",\"value\":\""@ + (esc(d) + seq!['"'] + after_value(e))).skip(",\"value\":\""@.len() as int) =~= esc(d) + seq!['"'] + after_value(e));
            assert(s@.skip(i6 as int) =~= esc(d) + seq!['"'] + after_value(e));
        }
    }
    let (value, i7) = match parse_string(s, n, i6) {
        Some(p) => p,
        None => {
            proof {
                assert(!is_mint_text(s@)) by {
                    if is_mint_text(s@) {
                        let (a, b, c, d, e) = choose|a: Seq<char>, b: Seq<char>, c: Seq<char>, d: Seq<char>, e: Seq<char>| s@ == #[trigger] mint_json(a, b, c, d, e);
                        assert(false);
                    }
                }
            }
            return None;
        },
    };
    proof {
        assert forall|a: Seq<char>, b: Seq<char>, c: Seq<char>, d: Seq<char>, e: Seq<char>|
            s@ == #[trigger] mint_json(a, b, c, d, e) implies d == value@ && s@.skip(i7 as int) == after_value(e) by {
        }
    }
    let i8 = match expect_lit(s, n, i7, "},\"thumbNail\":\"") {
        Some(i) => i,
        None => {
            proof {
                assert(!is_mint_text(s@)) by {
                    if is_mint_text(s@) {
                        let (a, b, c, d, e) = choose|a: Seq<char>, b: Seq<char>, c: Seq<char>, d: Seq<char>, e: Seq<char>| s@ == #[trigger] mint_json(a, b, c, d, e);
                        assert(s@.skip(i7 as int) == "},\"thumbNail\":\""@ + (esc(e) + seq!['"'] + "},\"type\":\"mint-nft\"}"@));
                        assert(i7 as int + "},\"thumbNail\":\""@.len() <= s@.len());
                        assert(s@.subrange(i7 as int, i7 as int + "},\"thumbNail\":\""@.len() as int) =~= s@.skip(i7 as int).subrange(0, "},\"thumbNail\":\""@.len() as int));
                        assert(("},\"thumbNail\":\""@ + (esc(e) + seq!['"'] + "},\"type\":\"mint-nft\"}"@)).subrange(0, "},\"thumbNail\":\""@.len() as int) =~= "},\"thumbNail\":\""@);
                        assert(s@.subrange(i7 as int, i7 as int + "},\"thumbNail\":\""@.len() as int) =~= "},\"thumbNail\":\""@);
                        assert(false);
                    }
                }
            }
            return None;
        },
    };
    proof {
        assert forall|a: Seq<char>, b: Seq<char>, c: Seq<char>, d: Seq<char>, e: Seq<char>|
            s@ == #[trigger] mint_json(a, b, c, d, e) implies s@.skip(i8 as int) == esc(e) + seq!['"'] + "},\"type\":\"mint-nft\"}"@ by {
            assert(s@.skip(i7 as int) == "},\"thumbNail\":\""@ + (esc(e) + seq!['"'] + "},\"type\":\"mint-nft\"}"@));
            assert(s@.skip(i8 as int) =~= s@.skip(i7 as int).skip("},\"thumbNail\":\""@.len() as int));
            assert(("},\"thumbNail\":\""@ + (esc(e) + seq!['"'] + "},\"type\":\"mint-nft\"}"@)).skip("},\"thumbNail\":\""@.len() as int) =~= esc(e) + seq!['"'] + "},\"type\":\"mint-nft\"}"@);
            assert(s@.skip(i8 as int) =~= esc(e) + seq!['"'] + "},\"type\":\"mint-nft\"}"@);
        }
    }
    let (thumb, i9) = match parse_string(s, n, i8) {
        Some(p) => p,
        None => {
            proof {
                assert(!is_mint_text(s@)) by {
                    if is_mint_text(s@) {
                        let (a, b, c, d, e) = choose|a: Seq<char>, b: Seq<char>, c: Seq<char>, d: Seq<char>, e: Seq<char>| s@ == #[trigger] mint_json(a, b, c, d, e);
                        assert(false);
                    }
                }
            }
            return None;
        },
    };
    proof {
        assert forall|a: Seq<char>, b: Seq<char>, c: Seq<char>, d: Seq<char>, e: Seq<char>|
            s@ == #[trigger] mint_json(a, b, c, d, e) implies e == thumb@ && s@.skip(i9 as int) == "},\"type\":\"mint-nft\"}"@ by {
        }
    }
    let i10 = match expect_lit(s, n, i9, "},\"type\":\"mint-nft\"}") {
        Some(i) => i,
        None => {
            proof {
                assert(!is_mint_text(s@)) by {
                    if is_mint_text(s@) {
                        let (a, b, c, d, e) = choose|a: Seq<char>, b: Seq<char>, c: Seq<char>, d: Seq<char>, e: Seq<char>| s@ == #[trigger] mint_json(a, b, c, d, e);
                        assert(i9 as int + "},\"type\":\"mint-nft\"}"@.len() <= s@.len());
                        assert(s@.subrange(i9 as int, i9 as int + "},\"type\":\"mint-nft\"}"@.len() as int) =~= s@.skip(i9 as int));
                        assert(s@.subrange(i9 as int, i9 as int + "},\"type\":\"mint-nft\"}"@.len() as int) =~= "},\"type\":\"mint-nft\"}"@);
                        assert(false);
                    }
                }
            }
            return None;
        },
    };
    proof {
        assert forall|a: Seq<char>, b: Seq<char>, c: Seq<char>, d: Seq<char>, e: Seq<char>|
            s@ == #[trigger] mint_json(a, b, c, d, e) implies i10 as int == s@.len() by {
            assert(s@.skip(i9 as int).len() == "},\"type\":\"mint-nft\"}"@.len());
        }
    }
    if i10 != n {
        proof {
            assert(!is_mint_text(s@)) by {
                if is_mint_text(s@) {
                    let (a, b, c, d, e) = choose|a: Seq<char>, b: Seq<char>, c: Seq<char>, d: Seq<char>, e: Seq<char>| s@ == #[trigger] mint_json(a, b, c, d, e);
                    assert(false);
                }
            }
        }
        return None;
    }
    proof {
        lemma_mint_assemble(
            s@,
            i0 as int, i1 as int, i2 as int, i3 as int, i4 as int,
            i5 as int, i6 as int, i7 as int, i8 as int, i9 as int, i10 as int,
            name@, typ@, key@, value@, thumb@,
        );
    }
    Some(NFTItem {
        item_name: name,
        item_type: typ,
        attributes: NFTAttributes { key, value },
        thumb_nail: thumb,
    })
}

/// A directed command the backend can push to one connected client.
pub enum Command {
    GameStart,
    GameEnd,
    MintNft(NFTItem),
}

/// The wire text of each command: the lifecycle commands are bare words, the
/// mint command is the encoded item message.
pub open spec fn command_text_spec(c: Command) -> Seq<char> {
    match c {
        Command::GameStart => "game-start"@,
        Command::GameEnd => "game-end"@,
        Command::MintNft(item) => mint_json_of(item),
    }
}

/// Encodes one command for the wire.
pub fn command_text(c: &Command) -> (r: String)
    ensures
        r@ == command_text_spec(*c),
{
    match c {
        Command::GameStart => String::from_str("game-start"),
        Command::GameEnd => String::from_str("game-end"),
        Command::MintNft(item) => encode_mint_message(item),
    }
}

} // verus!

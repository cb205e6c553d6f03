//! Text encoding for the persisted key store: every binary key and value is
//! base64-encoded, and the whole store is framed as a JSON document
//! `{"values":{"<key>":"<value>",...}}` with one field per entry.
//!
//! The framing (emitter and parser) is this crate's own verified logic; only
//! the base64 alphabet conversion is delegated to an outside crate.

use vstd::prelude::*;

verus! {

pub const QUOTE: u8 = 34;

pub const COLON: u8 = 58;

pub const COMMA: u8 = 44;

pub const LBRACE: u8 = 123;

pub const RBRACE: u8 = 125;

/// Bytes that the standard base64 alphabet can produce (including `=` padding).
pub open spec fn is_b64_byte(b: u8) -> bool {
    (65 <= b <= 90) || (97 <= b <= 122) || (48 <= b <= 57) || b == 43 || b == 47 || b == 61
}

pub open spec fn all_b64(s: Seq<u8>) -> bool {
    forall|i: int| 0 <= i < s.len() ==> is_b64_byte(#[trigger] s[i])
}

/// The text that base64 encoding produces for the given bytes.
pub uninterp spec fn b64_encode_of(data: Seq<u8>) -> Seq<u8>;

/// The bytes that base64 decoding recovers from the given text, if any.
pub uninterp spec fn b64_decode_of(text: Seq<u8>) -> Option<Seq<u8>>;

/// Relies on base64::encode (standard alphabet, with padding): deterministic,
/// emits only alphabet bytes, and base64::decode inverts it.
#[verifier::external_body]
pub fn b64_encode(data: &[u8]) -> (r: Vec<u8>)
    ensures
        r@ == b64_encode_of(data@),
        all_b64(r@),
        b64_decode_of(r@) == Some(data@),
{
    base64::encode(data).into_bytes()
}

/// Relies on base64::decode: the deterministic inverse of base64::encode;
/// text outside the encoding is rejected.
#[verifier::external_body]
pub fn b64_decode(text: &[u8]) -> (r: Option<Vec<u8>>)
    ensures
        match r {
            Some(v) => b64_decode_of(text@) == Some(v@),
            None => b64_decode_of(text@) is None,
        },
{
    match base64::decode(text) {
        Ok(v) => Some(v),
        Err(_) => None,
    }
}

/// View of a vector of already-encoded entries as a sequence of byte-string pairs.
pub open spec fn pairs_view(es: Seq<(Vec<u8>, Vec<u8>)>) -> Seq<(Seq<u8>, Seq<u8>)> {
    es.map_values(|p: (Vec<u8>, Vec<u8>)| (p.0@, p.1@))
}

pub open spec fn wf_pairs(ps: Seq<(Seq<u8>, Seq<u8>)>) -> bool {
    forall|i: int| 0 <= i < ps.len() ==> all_b64(#[trigger] ps[i].0) && all_b64(ps[i].1)
}

/// One JSON object member: `"key":"value"`.
pub open spec fn emit_pair(p: (Seq<u8>, Seq<u8>)) -> Seq<u8> {
    seq![QUOTE] + p.0 + seq![QUOTE, COLON, QUOTE] + p.1 + seq![QUOTE]
}

/// Comma-separated members, in entry order.
pub open spec fn emit_entries(ps: Seq<(Seq<u8>, Seq<u8>)>) -> Seq<u8>
    decreases ps.len(),
{
    if ps.len() == 0 {
        Seq::empty()
    } else if ps.len() == 1 {
        emit_pair(ps[0])
    } else {
        emit_pair(ps[0]) + seq![COMMA] + emit_entries(ps.drop_first())
    }
}

/// The document opening: `{"values":{`.
pub open spec fn doc_prefix() -> Seq<u8> {
    seq![LBRACE, QUOTE, 118u8, 97u8, 108u8, 117u8, 101u8, 115u8, QUOTE, COLON, LBRACE]
}

/// The whole document: `{"values":{ members }}`.
pub open spec fn emit_doc(ps: Seq<(Seq<u8>, Seq<u8>)>) -> Seq<u8> {
    doc_prefix() + emit_entries(ps) + seq![RBRACE, RBRACE]
}

/// Split the input at its first quote: the bytes before it and those after it.
pub open spec fn scan_quote(s: Seq<u8>) -> Option<(Seq<u8>, Seq<u8>)>
    decreases s.len(),
{
    if s.len() == 0 {
        None
    } else if s[0] == QUOTE {
        Some((Seq::empty(), s.drop_first()))
    } else {
        match scan_quote(s.drop_first()) {
            Some(p) => Some((seq![s[0]] + p.0, p.1)),
            None => None,
        }
    }
}

/// Parse the members and the closing `}}` of a document, entry by entry.
pub open spec fn parse_entries(s: Seq<u8>) -> Option<Seq<(Seq<u8>, Seq<u8>)>>
    decreases s.len(),
{
    if s.len() == 2 && s[0] == RBRACE && s[1] == RBRACE {
        Some(Seq::empty())
    } else if s.len() > 0 && s[0] == QUOTE {
        match scan_quote(s.drop_first()) {
            None => None,
            Some(kr) => {
                if kr.1.len() >= 2 && kr.1[0] == COLON && kr.1[1] == QUOTE {
                    match scan_quote(kr.1.skip(2)) {
                        None => None,
                        Some(vr) => {
                            if vr.1.len() == 2 && vr.1[0] == RBRACE && vr.1[1] == RBRACE {
                                Some(seq![(kr.0, vr.0)])
                            } else if vr.1.len() > 0 && vr.1[0] == COMMA && vr.1.drop_first().len()
                                < s.len() {
                                match parse_entries(vr.1.drop_first()) {
                                    None => None,
                                    Some(more) => Some(seq![(kr.0, vr.0)] + more),
                                }
                            } else {
                                None
                            }
                        },
                    }
                } else {
                    None
                }
            },
        }
    } else {
        None
    }
}

/// Parse a whole document; anything but the exact framing is rejected.
pub open spec fn parse_doc(s: Seq<u8>) -> Option<Seq<(Seq<u8>, Seq<u8>)>> {
    if s.len() >= 11 && s.take(11) == doc_prefix() {
        parse_entries(s.skip(11))
    } else {
        None
    }
}

pub proof fn lemma_scan_quote(a: Seq<u8>, rest: Seq<u8>)
    requires
        forall|i: int| 0 <= i < a.len() ==> #[trigger] a[i] != QUOTE,
    ensures
        scan_quote(a + seq![QUOTE] + rest) == Some((a, rest)),
    decreases a.len(),
{
    let s = a + seq![QUOTE] + rest;
    if a.len() == 0 {
        assert(s[0] == QUOTE);
        assert(s.drop_first() =~= rest);
        assert(Seq::<u8>::empty() =~= a);
    } else {
        assert(s[0] == a[0]);
        assert(s.drop_first() =~= a.drop_first() + seq![QUOTE] + rest);
        lemma_scan_quote(a.drop_first(), rest);
        assert(seq![s[0]] + a.drop_first() =~= a);
    }
}

pub proof fn lemma_scan_quote_none(s: Seq<u8>)
    requires
        forall|i: int| 0 <= i < s.len() ==> #[trigger] s[i] != QUOTE,
    ensures
        scan_quote(s) is None,
    decreases s.len(),
{
    if s.len() > 0 {
        lemma_scan_quote_none(s.drop_first());
    }
}

/// Parsing inverts emission: the round-trip law of the document framing,
/// for entries whose components stay inside the base64 alphabet.
pub proof fn lemma_parse_emit_entries(ps: Seq<(Seq<u8>, Seq<u8>)>)
    requires
        wf_pairs(ps),
    ensures
        parse_entries(emit_entries(ps) + seq![RBRACE, RBRACE]) == Some(ps),
    decreases ps.len(),
{
    let s = emit_entries(ps) + seq![RBRACE, RBRACE];
    if ps.len() == 0 {
        assert(s =~= seq![RBRACE, RBRACE]);
        assert(ps =~= Seq::<(Seq<u8>, Seq<u8>)>::empty());
    } else {
        let k = ps[0].0;
        let v = ps[0].1;
        assert(all_b64(k) && all_b64(v));
        assert(forall|i: int| 0 <= i < k.len() ==> #[trigger] k[i] != QUOTE);
        assert(forall|i: int| 0 <= i < v.len() ==> #[trigger] v[i] != QUOTE);
        let tail = if ps.len() == 1 {
            Seq::<u8>::empty()
        } else {
            seq![COMMA] + emit_entries(ps.drop_first())
        };
        let t = tail + seq![RBRACE, RBRACE];
        let r1 = seq![COLON, QUOTE] + v + seq![QUOTE] + t;
        assert(s =~= seq![QUOTE] + (k + seq![QUOTE] + r1)) by {
            assert(emit_pair(ps[0]) == seq![QUOTE] + k + seq![QUOTE, COLON, QUOTE] + v + seq![
                QUOTE,
            ]);
        }
        assert(s.len() > 0 && s[0] == QUOTE);
        assert(!(s.len() == 2 && s[0] == RBRACE && s[1] == RBRACE));
        assert(s.drop_first() =~= k + seq![QUOTE] + r1);
        lemma_scan_quote(k, r1);
        assert(scan_quote(s.drop_first()) == Some((k, r1)));
        assert(r1.len() >= 2 && r1[0] == COLON && r1[1] == QUOTE);
        assert(r1.skip(2) =~= v + seq![QUOTE] + t);
        lemma_scan_quote(v, t);
        assert(scan_quote(r1.skip(2)) == Some((v, t)));
        if ps.len() == 1 {
            assert(t =~= seq![RBRACE, RBRACE]);
            assert(t.len() == 2 && t[0] == RBRACE && t[1] == RBRACE);
            assert(seq![(k, v)] =~= ps);
        } else {
            assert(t =~= seq![COMMA] + (emit_entries(ps.drop_first()) + seq![RBRACE, RBRACE]));
            assert(t.len() > 0 && t[0] == COMMA);
            assert(t[0] != RBRACE);
            assert(t.drop_first() =~= emit_entries(ps.drop_first()) + seq![RBRACE, RBRACE]);
            assert(t.drop_first().len() < s.len());
            assert(wf_pairs(ps.drop_first()));
            lemma_parse_emit_entries(ps.drop_first());
            assert(seq![(k, v)] + ps.drop_first() =~= ps);
        }
    }
}

pub proof fn lemma_parse_emit_doc(ps: Seq<(Seq<u8>, Seq<u8>)>)
    requires
        wf_pairs(ps),
    ensures
        parse_doc(emit_doc(ps)) == Some(ps),
{
    let s = emit_doc(ps);
    assert(s.take(11) =~= doc_prefix());
    assert(s.skip(11) =~= emit_entries(ps) + seq![RBRACE, RBRACE]);
    lemma_parse_emit_entries(ps);
}

/// How emission grows when one entry is appended; used by the emitting loop.
pub proof fn lemma_emit_entries_push(ps: Seq<(Seq<u8>, Seq<u8>)>, p: (Seq<u8>, Seq<u8>))
    ensures
        emit_entries(ps.push(p)) == if ps.len() == 0 {
            emit_pair(p)
        } else {
            emit_entries(ps) + seq![COMMA] + emit_pair(p)
        },
    decreases ps.len(),
{
    let q = ps.push(p);
    if ps.len() == 0 {
        assert(q.len() == 1);
        assert(q[0] == p);
    } else {
        assert(q[0] == ps[0]);
        assert(q.drop_first() =~= ps.drop_first().push(p));
        lemma_emit_entries_push(ps.drop_first(), p);
        if ps.len() == 1 {
            assert(emit_entries(q) == emit_pair(ps[0]) + seq![COMMA] + emit_entries(
                q.drop_first(),
            ));
            assert(emit_entries(q.drop_first()) == emit_pair(p));
        } else {
            assert(emit_entries(q) == emit_pair(ps[0]) + seq![COMMA] + (emit_entries(
                ps.drop_first(),
            ) + seq![COMMA] + emit_pair(p)));
            assert(emit_pair(ps[0]) + seq![COMMA] + (emit_entries(ps.drop_first()) + seq![COMMA]
                + emit_pair(p)) =~= (emit_pair(ps[0]) + seq![COMMA] + emit_entries(ps.drop_first()))
                + seq![COMMA] + emit_pair(p));
        }
    }
}

/// Append a byte slice to a buffer.
pub fn push_bytes(out: &mut Vec<u8>, piece: &[u8])
    ensures
        final(out)@ == old(out)@ + piece@,
{
    let mut i: usize = 0;
    while i < piece.len()
        invariant
            i <= piece@.len(),
            out@ == old(out)@ + piece@.take(i as int),
        decreases piece@.len() - i,
    {
        out.push(piece[i]);
        proof {
            assert(piece@.take(i + 1int) =~= piece@.take(i as int).push(piece@[i as int]));
            assert(old(out)@ + piece@.take(i as int).push(piece@[i as int]) =~= (old(out)@
                + piece@.take(i as int)).push(piece@[i as int]));
        }
        i += 1;
    }
    proof {
        assert(piece@.take(piece@.len() as int) =~= piece@);
    }
}

fn doc_prefix_vec() -> (r: Vec<u8>)
    ensures
        r@ == doc_prefix(),
{
    let mut p: Vec<u8> = Vec::new();
    p.push(LBRACE);
    p.push(QUOTE);
    p.push(118);
    p.push(97);
    p.push(108);
    p.push(117);
    p.push(101);
    p.push(115);
    p.push(QUOTE);
    p.push(COLON);
    p.push(LBRACE);
    proof {
        assert(p@ =~= doc_prefix());
    }
    p
}

/// Emit the document for a vector of already base64-encoded entries.
pub fn emit_store_doc(entries: &Vec<(Vec<u8>, Vec<u8>)>) -> (r: Vec<u8>)
    ensures
        r@ == emit_doc(pairs_view(entries@)),
{
    let ghost pv = pairs_view(entries@);
    let mut out: Vec<u8> = doc_prefix_vec();
    let mut i: usize = 0;
    while i < entries.len()
        invariant
            i <= entries@.len(),
            pv == pairs_view(entries@),
            pv.len() == entries@.len(),
            out@ == doc_prefix() + emit_entries(pv.take(i as int)),
        decreases entries@.len() - i,
    {
        if i > 0 {
            out.push(COMMA);
        }
        out.push(QUOTE);
        push_bytes(&mut out, entries[i].0.as_slice());
        out.push(QUOTE);
        out.push(COLON);
        out.push(QUOTE);
        push_bytes(&mut out, entries[i].1.as_slice());
        out.push(QUOTE);
        proof {
            let p = pv[i as int];
            assert(p.0 == entries@[i as int].0@ && p.1 == entries@[i as int].1@);
            lemma_emit_entries_push(pv.take(i as int), p);
            assert(pv.take(i + 1int) =~= pv.take(i as int).push(p));
            if i == 0 {
                assert(out@ =~= doc_prefix() + emit_pair(p));
            } else {
                assert(out@ =~= doc_prefix() + (emit_entries(pv.take(i as int)) + seq![COMMA]
                    + emit_pair(p)));
            }
        }
        i += 1;
    }
    out.push(RBRACE);
    out.push(RBRACE);
    proof {
        assert(pv.take(entries@.len() as int) =~= pv);
        assert(out@ =~= doc_prefix() + emit_entries(pv) + seq![RBRACE, RBRACE]);
    }
    out
}

/// Read bytes up to the next quote; also reports how much input was used.
fn scan_take(s: &[u8]) -> (r: Option<(Vec<u8>, usize)>)
    ensures
        match r {
            Some(p) => 1 <= p.1 <= s@.len() && scan_quote(s@) == Some((p.0@, s@.skip(p.1 as int))),
            None => scan_quote(s@) is None,
        },
{
    let mut j: usize = 0;
    let mut out: Vec<u8> = Vec::new();
    while j < s.len() && s[j] != QUOTE
        invariant
            j <= s@.len(),
            out@ == s@.take(j as int),
            forall|k: int| 0 <= k < j ==> #[trigger] s@[k] != QUOTE,
        decreases s@.len() - j,
    {
        out.push(s[j]);
        proof {
            assert(s@.take(j + 1int) =~= s@.take(j as int).push(s@[j as int]));
        }
        j += 1;
    }
    if j == s.len() {
        proof {
            assert(s@.take(j as int) =~= s@);
            lemma_scan_quote_none(s@);
        }
        None
    } else {
        proof {
            assert(s@[j as int] == QUOTE);
            assert(s@ =~= s@.take(j as int) + seq![QUOTE] + s@.skip(j + 1int));
            lemma_scan_quote(s@.take(j as int), s@.skip(j + 1int));
        }
        Some((out, j + 1))
    }
}

/// Parse the members and closing braces of a document, mirroring `parse_entries`.
pub fn parse_entries_exec(s: &[u8]) -> (r: Option<Vec<(Vec<u8>, Vec<u8>)>>)
    ensures
        match r {
            Some(v) => parse_entries(s@) == Some(pairs_view(v@)),
            None => parse_entries(s@) is None,
        },
    decreases s@.len(),
{
    let n = s.len();
    if n == 2 && s[0] == RBRACE && s[1] == RBRACE {
        let empty: Vec<(Vec<u8>, Vec<u8>)> = Vec::new();
        proof {
            assert(pairs_view(empty@) =~= Seq::<(Seq<u8>, Seq<u8>)>::empty());
        }
        return Some(empty);
    }
    if n == 0 || s[0] != QUOTE {
        return None;
    }
    let tail1 = vstd::slice::slice_subrange(s, 1, n);
    proof {
        assert(tail1@ =~= s@.drop_first());
    }
    match scan_take(tail1) {
        None => None,
        Some((key, used_k)) => {
            // after the key's closing quote: expect `:"`.
            let ghost r1 = tail1@.skip(used_k as int);
            if n - 1 - used_k < 2 {
                return None;
            }
            if s[1 + used_k] != COLON || s[1 + used_k + 1] != QUOTE {
                proof {
                    assert(r1[0] == s@[1 + used_k as int]);
                    assert(r1[1] == s@[1 + used_k + 1int]);
                }
                return None;
            }
            proof {
                assert(r1[0] == COLON && r1[1] == QUOTE);
            }
            let tail2 = vstd::slice::slice_subrange(s, 1 + used_k + 2, n);
            proof {
                assert(tail2@ =~= r1.skip(2));
            }
            match scan_take(tail2) {
                None => None,
                Some((value, used_v)) => {
                    let base = 3 + used_k + used_v;
                    let ghost r2 = tail2@.skip(used_v as int);
                    proof {
                        assert(r2 =~= s@.skip(base as int));
                    }
                    if n - base == 2 && s[base] == RBRACE && s[base + 1] == RBRACE {
                        proof {
                            assert(r2.len() == 2 && r2[0] == RBRACE && r2[1] == RBRACE);
                        }
                        let mut one: Vec<(Vec<u8>, Vec<u8>)> = Vec::new();
                        one.push((key, value));
                        proof {
                            assert(pairs_view(one@) =~= seq![(key@, value@)]);
                        }
                        Some(one)
                    } else if n - base > 0 && s[base] == COMMA {
                        proof {
                            assert(r2.len() > 0 && r2[0] == COMMA);
                            assert(!(r2.len() == 2 && r2[0] == RBRACE && r2[1] == RBRACE));
                            assert(r2.drop_first() =~= s@.skip(base + 1int));
                            assert(r2.drop_first().len() < s@.len());
                        }
                        let rest = vstd::slice::slice_subrange(s, base + 1, n);
                        proof {
                            assert(rest@ =~= r2.drop_first());
                        }
                        match parse_entries_exec(rest) {
                            None => None,
                            Some(mut more) => {
                                more.insert(0, (key, value));
                                proof {
                                    assert(pairs_view(more@) =~= seq![
                                        (more@[0].0@, more@[0].1@),
                                    ] + pairs_view(more@.drop_first()));
                                }
                                Some(more)
                            },
                        }
                    } else {
                        proof {
                            if r2.len() == 2 && r2[0] == RBRACE && r2[1] == RBRACE {
                                assert(s@[base as int] == RBRACE && s@[base + 1int] == RBRACE);
                            }
                            if r2.len() > 0 && r2[0] == COMMA {
                                assert(s@[base as int] == COMMA);
                            }
                        }
                        None
                    }
                },
            }
        },
    }
}

/// Parse a whole store document.
pub fn parse_store_doc(s: &[u8]) -> (r: Option<Vec<(Vec<u8>, Vec<u8>)>>)
    ensures
        match r {
            Some(v) => parse_doc(s@) == Some(pairs_view(v@)),
            None => parse_doc(s@) is None,
        },
{
    if s.len() < 11 {
        return None;
    }
    let prefix = doc_prefix_vec();
    let mut i: usize = 0;
    while i < 11
        invariant
            i <= 11,
            s@.len() >= 11,
            prefix@ == doc_prefix(),
            forall|k: int| 0 <= k < i ==> #[trigger] s@[k] == doc_prefix()[k],
        decreases 11 - i,
    {
        if s[i] != prefix[i] {
            proof {
                assert(s@.take(11)[i as int] != doc_prefix()[i as int]);
            }
            return None;
        }
        i += 1;
    }
    proof {
        assert(s@.take(11) =~= doc_prefix());
    }
    parse_entries_exec(vstd::slice::slice_subrange(s, 11, s.len()))
}

} // verus!

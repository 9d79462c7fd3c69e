//! The snapshot codec: the textual form in which the store's mapping is
//! persisted.  Each pair is written as its escaped key and escaped value,
//! each closed by a `;` separator; `;` and `%` inside a field are escaped
//! as `%s` and `%p`.  Decoding a snapshot produced by the encoder yields
//! the pairs back exactly, and that round trip is proved below.

use vstd::prelude::*;
use vstd::string::*;
use crate::store::pairs_view;
use crate::text::push_char;

verus! {

/// How one character is written inside a field: the separator and the
/// escape lead-in are escaped, everything else stands for itself.
pub open spec fn esc_char(c: char) -> Seq<char> {
    if c == ';' {
        seq!['%', 's']
    } else if c == '%' {
        seq!['%', 'p']
    } else {
        seq![c]
    }
}

/// A field's text: each character escaped.
pub open spec fn spec_escape(s: Seq<char>) -> Seq<char>
    decreases s.len(),
{
    if s.len() == 0 {
        Seq::empty()
    } else {
        esc_char(s[0]) + spec_escape(s.drop_first())
    }
}

/// Undoes [`spec_escape`]; rejects text with a dangling or unknown escape.
pub open spec fn spec_unescape(s: Seq<char>) -> Option<Seq<char>>
    decreases s.len(),
{
    if s.len() == 0 {
        Some(Seq::<char>::empty())
    } else if s[0] == '%' {
        if s.len() >= 2 && (s[1] == 's' || s[1] == 'p') {
            match spec_unescape(s.skip(2)) {
                Some(t) => Some(
                    seq![
                        if s[1] == 's' {
                            ';'
                        } else {
                            '%'
                        },
                    ] + t,
                ),
                None => None,
            }
        } else {
            None
        }
    } else {
        match spec_unescape(s.skip(1)) {
            Some(t) => Some(seq![s[0]] + t),
            None => None,
        }
    }
}

/// Splits at the first separator: the text before it and the rest after
/// it, or nothing when no separator is left.
pub open spec fn spec_field(s: Seq<char>) -> Option<(Seq<char>, Seq<char>)>
    decreases s.len(),
{
    if s.len() == 0 {
        None
    } else if s[0] == ';' {
        Some((Seq::<char>::empty(), s.drop_first()))
    } else {
        match spec_field(s.drop_first()) {
            Some(fr) => Some((seq![s[0]] + fr.0, fr.1)),
            None => None,
        }
    }
}

/// The snapshot text of one pair.
pub open spec fn spec_record(p: (Seq<char>, Seq<char>)) -> Seq<char> {
    spec_escape(p.0) + seq![';'] + spec_escape(p.1) + seq![';']
}

/// The snapshot text of a pair sequence.
pub open spec fn spec_encode(ps: Seq<(Seq<char>, Seq<char>)>) -> Seq<char>
    decreases ps.len(),
{
    if ps.len() == 0 {
        Seq::empty()
    } else {
        spec_encode(ps.drop_last()) + spec_record(ps.last())
    }
}

/// The pair sequence a snapshot text denotes, or nothing when the text is
/// not a well-formed snapshot.
pub open spec fn spec_decode(s: Seq<char>) -> Option<Seq<(Seq<char>, Seq<char>)>>
    decreases s.len(),
    via spec_decode_decreases
{
    if s.len() == 0 {
        Some(Seq::<(Seq<char>, Seq<char>)>::empty())
    } else {
        match spec_field(s) {
            None => None,
            Some(key_part) => match spec_field(key_part.1) {
                None => None,
                Some(value_part) => match (spec_unescape(key_part.0), spec_unescape(
                    value_part.0,
                )) {
                    (Some(k), Some(v)) => match spec_decode(value_part.1) {
                        Some(rest) => Some(seq![(k, v)] + rest),
                        None => None,
                    },
                    _ => None,
                },
            },
        }
    }
}

#[via_fn]
proof fn spec_decode_decreases(s: Seq<char>) {
    if s.len() != 0 {
        match spec_field(s) {
            None => {},
            Some(key_part) => {
                lemma_field_len(s);
                match spec_field(key_part.1) {
                    None => {},
                    Some(value_part) => {
                        lemma_field_len(key_part.1);
                    },
                }
            },
        }
    }
}

/// A successful field split accounts for every character of the input.
proof fn lemma_field_len(s: Seq<char>)
    ensures
        spec_field(s) matches Some(fr) ==> fr.0.len() + 1 + fr.1.len() == s.len(),
    decreases s.len(),
{
    if s.len() > 0 && s[0] != ';' {
        lemma_field_len(s.drop_first());
    }
}

/// Escaped text never contains a bare separator.
proof fn lemma_escape_no_semi(s: Seq<char>)
    ensures
        forall|i: int| 0 <= i < spec_escape(s).len() ==> spec_escape(s)[i] != ';',
    decreases s.len(),
{
    if s.len() > 0 {
        lemma_escape_no_semi(s.drop_first());
        let e = esc_char(s[0]);
        assert forall|i: int| 0 <= i < spec_escape(s).len() implies spec_escape(s)[i] != ';' by {
            if i < e.len() {
                assert(spec_escape(s)[i] == e[i]);
            } else {
                assert(spec_escape(s)[i] == spec_escape(s.drop_first())[i - e.len()]);
            }
        }
    }
}

/// Escaping then unescaping gives the text back.
proof fn lemma_unescape_escape(s: Seq<char>)
    ensures
        spec_unescape(spec_escape(s)) == Some(s),
    decreases s.len(),
{
    if s.len() == 0 {
        assert(s =~= Seq::<char>::empty());
    } else {
        lemma_unescape_escape(s.drop_first());
        let es = spec_escape(s);
        if s[0] == ';' {
            assert(es[0] == '%' && es[1] == 's');
            assert(es.skip(2) =~= spec_escape(s.drop_first()));
            assert(seq![';'] + s.drop_first() =~= s);
        } else if s[0] == '%' {
            assert(es[0] == '%' && es[1] == 'p');
            assert(es.skip(2) =~= spec_escape(s.drop_first()));
            assert(seq!['%'] + s.drop_first() =~= s);
        } else {
            assert(es[0] == s[0]);
            assert(es.skip(1) =~= spec_escape(s.drop_first()));
            assert(seq![s[0]] + s.drop_first() =~= s);
        }
    }
}

/// Splitting escaped text closed by a separator recovers the text.
proof fn lemma_field_of_escaped(f: Seq<char>, rest: Seq<char>)
    requires
        forall|i: int| 0 <= i < f.len() ==> f[i] != ';',
    ensures
        spec_field(f + seq![';'] + rest) == Some((f, rest)),
    decreases f.len(),
{
    let s = f + seq![';'] + rest;
    if f.len() == 0 {
        assert(s[0] == ';');
        assert(s.drop_first() =~= rest);
        assert(Seq::<char>::empty() =~= f);
    } else {
        assert(s[0] == f[0]);
        assert(s.drop_first() =~= f.drop_first() + seq![';'] + rest);
        lemma_field_of_escaped(f.drop_first(), rest);
        assert(seq![s[0]] + f.drop_first() =~= f);
    }
}

/// Concatenation distributes over encoding.
proof fn lemma_encode_append(a: Seq<(Seq<char>, Seq<char>)>, b: Seq<(Seq<char>, Seq<char>)>)
    ensures
        spec_encode(a + b) == spec_encode(a) + spec_encode(b),
    decreases b.len(),
{
    if b.len() == 0 {
        assert(a + b =~= a);
        assert(spec_encode(a) + spec_encode(b) =~= spec_encode(a));
    } else {
        lemma_encode_append(a, b.drop_last());
        assert((a + b).drop_last() =~= a + b.drop_last());
        assert((a + b).last() == b.last());
        assert(spec_encode(a + b) =~= spec_encode(a) + spec_encode(b));
    }
}

/// A nonempty sequence encodes as its first record followed by the rest.
proof fn lemma_encode_first(ps: Seq<(Seq<char>, Seq<char>)>)
    requires
        ps.len() > 0,
    ensures
        spec_encode(ps) == spec_record(ps[0]) + spec_encode(ps.drop_first()),
{
    let head = seq![ps[0]];
    lemma_encode_append(head, ps.drop_first());
    assert(head + ps.drop_first() =~= ps);
    assert(head.drop_last() =~= Seq::<(Seq<char>, Seq<char>)>::empty());
    assert(head.last() == ps[0]);
    assert(spec_encode(head.drop_last()) =~= Seq::<char>::empty());
    assert(spec_encode(head) =~= spec_record(ps[0]));
}

/// Persistence round trip: the snapshot text of any pair sequence decodes
/// to exactly that sequence, so a store saved and reloaded is unchanged.
pub proof fn lemma_decode_encode(ps: Seq<(Seq<char>, Seq<char>)>)
    ensures
        spec_decode(spec_encode(ps)) == Some(ps),
    decreases ps.len(),
{
    if ps.len() == 0 {
        assert(spec_encode(ps) =~= Seq::<char>::empty());
        assert(ps =~= Seq::<(Seq<char>, Seq<char>)>::empty());
    } else {
        let p = ps[0];
        let rest = ps.drop_first();
        lemma_encode_first(ps);
        let e = spec_encode(ps);
        let tail = spec_escape(p.1) + seq![';'] + spec_encode(rest);
        assert(e =~= spec_escape(p.0) + seq![';'] + tail);
        lemma_escape_no_semi(p.0);
        lemma_escape_no_semi(p.1);
        lemma_field_of_escaped(spec_escape(p.0), tail);
        lemma_field_of_escaped(spec_escape(p.1), spec_encode(rest));
        lemma_unescape_escape(p.0);
        lemma_unescape_escape(p.1);
        lemma_decode_encode(rest);
        assert(e.len() > 0);
        assert(spec_field(e) == Some((spec_escape(p.0), tail)));
        assert(spec_decode(e) == Some(seq![(p.0, p.1)] + rest));
        assert(seq![(p.0, p.1)] + rest =~= ps);
    }
}

/// The field split succeeds exactly when a separator exists, and splits
/// at the first one.
proof fn lemma_field_characterize(s: Seq<char>, j: int)
    requires
        0 <= j <= s.len(),
        forall|i: int| 0 <= i < j ==> s[i] != ';',
        j == s.len() || s[j] == ';',
    ensures
        j == s.len() ==> spec_field(s) is None,
        j < s.len() ==> spec_field(s) == Some((s.take(j), s.skip(j + 1))),
    decreases s.len(),
{
    if s.len() == 0 {
    } else if s[0] == ';' {
        assert(s.take(0) =~= Seq::<char>::empty());
        assert(s.skip(1) =~= s.drop_first());
    } else {
        lemma_field_characterize(s.drop_first(), j - 1);
        if j < s.len() {
            assert(seq![s[0]] + s.drop_first().take(j - 1) =~= s.take(j));
            assert(s.drop_first().skip(j) =~= s.skip(j + 1));
        }
    }
}

/// Escaping one more character extends the escaped text by its escape.
proof fn lemma_escape_snoc(a: Seq<char>, x: char)
    ensures
        spec_escape(a.push(x)) == spec_escape(a) + esc_char(x),
    decreases a.len(),
{
    if a.len() == 0 {
        assert(a.push(x)[0] == x);
        assert(a.push(x).drop_first() =~= Seq::<char>::empty());
        assert(spec_escape(a.push(x).drop_first()) =~= Seq::<char>::empty());
        assert(spec_escape(a.push(x)) =~= esc_char(x));
        assert(spec_escape(a) + esc_char(x) =~= esc_char(x));
    } else {
        lemma_escape_snoc(a.drop_first(), x);
        assert(a.push(x)[0] == a[0]);
        assert(a.push(x).drop_first() =~= a.drop_first().push(x));
        assert(spec_escape(a.push(x)) =~= spec_escape(a) + esc_char(x));
    }
}

/// Finds the first separator, as [`spec_field`] would split there.
fn find_semi(s: &str) -> (r: Option<usize>)
    ensures
        r matches Some(j) ==> j < s@.len() && spec_field(s@) == Some(
            (s@.take(j as int), s@.skip(j as int + 1)),
        ),
        r is None ==> spec_field(s@) is None,
{
    let sl = s.unicode_len();
    let mut i: usize = 0;
    while i < sl
        invariant
            i <= sl,
            sl == s@.len(),
            forall|k: int| 0 <= k < i ==> s@[k] != ';',
        decreases sl - i,
    {
        if s.get_char(i) == ';' {
            proof {
                lemma_field_characterize(s@, i as int);
            }
            return Some(i);
        }
        i += 1;
    }
    proof {
        lemma_field_characterize(s@, sl as int);
    }
    None
}

/// Writes one field's text, escaping the separator and the escape lead-in.
fn escape_str(s: &str) -> (out: String)
    ensures
        out@ == spec_escape(s@),
{
    let sl = s.unicode_len();
    let mut out = String::new();
    let mut i: usize = 0;
    while i < sl
        invariant
            i <= sl,
            sl == s@.len(),
            out@ == spec_escape(s@.take(i as int)),
        decreases sl - i,
    {
        let c = s.get_char(i);
        if c == ';' {
            push_char(&mut out, '%');
            push_char(&mut out, 's');
        } else if c == '%' {
            push_char(&mut out, '%');
            push_char(&mut out, 'p');
        } else {
            push_char(&mut out, c);
        }
        proof {
            lemma_escape_snoc(s@.take(i as int), s@[i as int]);
            assert(s@.take(i + 1) =~= s@.take(i as int).push(s@[i as int]));
            assert(out@ =~= spec_escape(s@.take(i as int)) + esc_char(s@[i as int]));
        }
        i += 1;
    }
    proof {
        assert(s@.take(sl as int) =~= s@);
    }
    out
}

/// Undoes [`escape_str`]; reports text that is not valid escape output.
fn unescape_str(s: &str) -> (r: Option<String>)
    ensures
        spec_unescape(s@) matches Some(t) ==> (r matches Some(out) && out@ == t),
        spec_unescape(s@) is None ==> r is None,
{
    let sl = s.unicode_len();
    let mut out = String::new();
    let mut i: usize = 0;
    proof {
        assert(s@.skip(0) =~= s@);
        if spec_unescape(s@) is Some {
            assert(out@ + spec_unescape(s@).unwrap() =~= spec_unescape(s@).unwrap());
        }
    }
    while i < sl
        invariant
            i <= sl,
            sl == s@.len(),
            spec_unescape(s@) is Some <==> spec_unescape(s@.skip(i as int)) is Some,
            spec_unescape(s@) is Some ==> spec_unescape(s@).unwrap() == out@ + spec_unescape(
                s@.skip(i as int),
            ).unwrap(),
        decreases sl - i,
    {
        let ghost u = s@.skip(i as int);
        let ghost out0 = out@;
        let c = s.get_char(i);
        proof {
            assert(u[0] == c);
        }
        if c == '%' {
            if i + 1 >= sl {
                proof {
                    assert(u.len() == 1);
                    assert(spec_unescape(u) is None);
                }
                return None;
            }
            let d = s.get_char(i + 1);
            proof {
                assert(u[1] == d);
            }
            if d == 's' {
                push_char(&mut out, ';');
            } else if d == 'p' {
                push_char(&mut out, '%');
            } else {
                proof {
                    assert(spec_unescape(u) is None);
                }
                return None;
            }
            proof {
                let esc: char = if d == 's' {
                    ';'
                } else {
                    '%'
                };
                let rest = s@.skip(i + 2);
                assert(u.skip(2) =~= rest);
                assert(out@ == out0.push(esc));
                if spec_unescape(rest) is Some {
                    let t = spec_unescape(rest).unwrap();
                    assert(spec_unescape(u) == Some(seq![esc] + t));
                    assert(out0 + (seq![esc] + t) =~= out@ + t);
                } else {
                    assert(spec_unescape(u) is None);
                }
            }
            i += 2;
        } else {
            push_char(&mut out, c);
            proof {
                let rest = s@.skip(i + 1);
                assert(u.skip(1) =~= rest);
                assert(out@ == out0.push(c));
                if spec_unescape(rest) is Some {
                    let t = spec_unescape(rest).unwrap();
                    assert(spec_unescape(u) == Some(seq![c] + t));
                    assert(out0 + (seq![c] + t) =~= out@ + t);
                } else {
                    assert(spec_unescape(u) is None);
                }
            }
            i += 1;
        }
    }
    proof {
        assert(s@.skip(sl as int) =~= Seq::<char>::empty());
        assert(out@ + Seq::<char>::empty() =~= out@);
    }
    Some(out)
}

/// Writes the snapshot text for a pair list.
pub fn encode_pairs(pairs: &Vec<(String, String)>) -> (out: String)
    ensures
        out@ == spec_encode(pairs_view(pairs@)),
{
    let mut out = String::new();
    let n = pairs.len();
    let mut i: usize = 0;
    while i < n
        invariant
            i <= n,
            n == pairs@.len(),
            out@ == spec_encode(pairs_view(pairs@).take(i as int)),
        decreases n - i,
    {
        let escaped_key = escape_str(pairs[i].0.as_str());
        out.append(escaped_key.as_str());
        push_char(&mut out, ';');
        let escaped_value = escape_str(pairs[i].1.as_str());
        out.append(escaped_value.as_str());
        push_char(&mut out, ';');
        proof {
            let pv = pairs_view(pairs@);
            assert(pv.take(i + 1).drop_last() =~= pv.take(i as int));
            assert(pv.take(i + 1).last() == (pairs@[i as int].0@, pairs@[i as int].1@));
            assert(out@ =~= spec_encode(pv.take(i as int)) + spec_record(pv.take(i + 1).last()));
        }
        i += 1;
    }
    proof {
        assert(pairs_view(pairs@).take(n as int) =~= pairs_view(pairs@));
    }
    out
}

/// Decodes snapshot text into its pair list; reports corrupt text.
pub fn decode_pairs(s: &str) -> (r: Option<Vec<(String, String)>>)
    ensures
        spec_decode(s@) matches Some(ps) ==> (r matches Some(v) && pairs_view(v@) == ps),
        spec_decode(s@) is None ==> r is None,
{
    let mut out: Vec<(String, String)> = Vec::new();
    let mut rest: &str = s;
    proof {
        if spec_decode(s@) is Some {
            assert(pairs_view(out@) + spec_decode(s@).unwrap() =~= spec_decode(s@).unwrap());
        }
    }
    loop
        invariant
            spec_decode(s@) is Some <==> spec_decode(rest@) is Some,
            spec_decode(s@) is Some ==> spec_decode(s@).unwrap() == pairs_view(out@) + spec_decode(
                rest@,
            ).unwrap(),
        decreases rest@.len(),
    {
        let rl = rest.unicode_len();
        if rl == 0 {
            proof {
                assert(rest@ =~= Seq::<char>::empty());
                assert(spec_decode(rest@) == Some(Seq::<(Seq<char>, Seq<char>)>::empty()));
                if spec_decode(s@) is Some {
                    assert(pairs_view(out@) + Seq::<(Seq<char>, Seq<char>)>::empty() =~= pairs_view(
                        out@,
                    ));
                }
            }
            return Some(out);
        }
        let ghost rest0 = rest@;
        let j = match find_semi(rest) {
            Some(j) => j,
            None => {
                proof {
                    assert(spec_decode(rest0) is None);
                }
                return None;
            },
        };
        let escaped_key = rest.substring_char(0, j);
        let r1 = rest.substring_char(j + 1, rl);
        proof {
            assert(escaped_key@ =~= rest0.take(j as int));
            assert(r1@ =~= rest0.skip(j as int + 1));
        }
        let r1l = r1.unicode_len();
        let j2 = match find_semi(r1) {
            Some(j2) => j2,
            None => {
                proof {
                    assert(spec_decode(rest0) is None);
                }
                return None;
            },
        };
        let escaped_value = r1.substring_char(0, j2);
        let r2 = r1.substring_char(j2 + 1, r1l);
        proof {
            assert(escaped_value@ =~= r1@.take(j2 as int));
            assert(r2@ =~= r1@.skip(j2 as int + 1));
        }
        let key = match unescape_str(escaped_key) {
            Some(k) => k,
            None => {
                proof {
                    assert(spec_decode(rest0) is None);
                }
                return None;
            },
        };
        let value = match unescape_str(escaped_value) {
            Some(v) => v,
            None => {
                proof {
                    assert(spec_decode(rest0) is None);
                }
                return None;
            },
        };
        let ghost out0 = out@;
        out.push((key, value));
        rest = r2;
        proof {
            assert(spec_field(rest0) == Some((escaped_key@, r1@)));
            assert(spec_field(r1@) == Some((escaped_value@, r2@)));
            if spec_decode(rest@) is Some {
                let tail = spec_decode(rest@).unwrap();
                assert(spec_decode(rest0) == Some(seq![(key@, value@)] + tail));
                if spec_decode(s@) is Some {
                    assert(pairs_view(out@) =~= pairs_view(out0).push((key@, value@)));
                    assert(pairs_view(out0) + (seq![(key@, value@)] + tail) =~= pairs_view(out@)
                        + tail);
                }
            } else {
                assert(spec_decode(rest0) is None);
            }
        }
    }
}

} // verus!

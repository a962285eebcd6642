use vstd::prelude::*;

use crate::text::chars_of;

verus! {

/// The placeholder that stands for the bibliography's path.
pub const BIBLIOGRAPHY_KEY: &'static str = "<bibliography>";

/// The placeholder that stands for the identifier of the cited entry.
pub const REFERENCE_KEY: &'static str = "<reference>";

/// A minimal journal document, in the IEEE style, that cites one entry.
pub const TEMPLATE: &'static str = r#"
\documentclass[journal]{IEEEtran}
\pagestyle{empty}
\renewcommand{\refname}{}

\begin{document}
\nocite{<reference>}
\bibliography{IEEEabrv,<bibliography>}
\bibliographystyle{IEEEtran}
\end{document}
"#;

/// `s` with every occurrence of `k`, taken from the left without overlap,
/// replaced by `v`.
pub open spec fn replaced(s: Seq<char>, k: Seq<char>, v: Seq<char>) -> Seq<char>
    decreases s.len(),
{
    if s.len() == 0 {
        s
    } else if 0 < k.len() <= s.len() && s.take(k.len() as int) == k {
        v + replaced(s.skip(k.len() as int), k, v)
    } else {
        seq![s[0]] + replaced(s.drop_first(), k, v)
    }
}

/// `k` occurs somewhere in `s`.
pub open spec fn occurs(s: Seq<char>, k: Seq<char>) -> bool {
    exists|i: int| 0 <= i && i + k.len() <= s.len() && #[trigger] s.subrange(i, i + k.len()) == k
}

/// Tells whether `k` occurs in `v` at position `i`.
fn occurs_at(v: &Vec<char>, i: usize, k: &Vec<char>) -> (r: bool)
    requires
        i <= v@.len(),
    ensures
        r == (k@.len() <= v@.len() - i && v@.subrange(i as int, i + k@.len()) == k@),
{
    if k.len() > v.len() - i {
        return false;
    }
    let n = v.len();
    let mut m: usize = 0;
    while m < k.len()
        invariant
            n == v@.len(),
            i <= v@.len(),
            m <= k@.len() <= v@.len() - i,
            forall|p: int| 0 <= p < m ==> v@[i + p] == k@[p],
        decreases k@.len() - m,
    {
        if v[i + m] != k[m] {
            assert(v@.subrange(i as int, i + k@.len())[m as int] != k@[m as int]);
            return false;
        }
        m = m + 1;
    }
    assert(v@.subrange(i as int, i + k@.len()) =~= k@);
    true
}

/// Replaces every occurrence of `key` in `text` by `value`.
pub fn replace_all(text: &str, key: &str, value: &str) -> (r: String)
    requires
        key@.len() > 0,
    ensures
        r@ == replaced(text@, key@, value@),
{
    let v = chars_of(text);
    let k = chars_of(key);
    let ghost s = text@;
    let mut out = String::new();
    let mut start: usize = 0;
    let mut i: usize = 0;
    assert(s.skip(0) =~= s);
    while i < v.len()
        invariant
            v@ == s,
            s == text@,
            k@ == key@,
            k@.len() > 0,
            start <= i <= v@.len(),
            replaced(s, k@, value@) == out@ + s.subrange(start as int, i as int) + replaced(
                s.skip(i as int),
                k@,
                value@,
            ),
        decreases v@.len() - i,
    {
        if occurs_at(&v, i, &k) {
            assert(s.skip(i as int).take(k@.len() as int) =~= s.subrange(i as int, i + k@.len()));
            assert(s.skip(i as int).skip(k@.len() as int) =~= s.skip(i + k@.len()));
            out.append(text.substring_char(start, i));
            out.append(value);
            i = i + k.len();
            start = i;
            assert(s.subrange(start as int, i as int) =~= Seq::<char>::empty());
        } else {
            proof {
                if i + k@.len() <= s.len() {
                    assert(s.skip(i as int).take(k@.len() as int) =~= s.subrange(
                        i as int,
                        i + k@.len(),
                    ));
                }
            }
            assert(s.skip(i as int).drop_first() =~= s.skip(i + 1));
            assert(s.subrange(start as int, i as int) + seq![s[i as int]] =~= s.subrange(
                start as int,
                i + 1,
            ));
            i = i + 1;
        }
    }
    out.append(text.substring_char(start, i));
    assert(s.skip(i as int) =~= Seq::<char>::empty());
    assert(out@ =~= replaced(s, k@, value@));
    out
}

/// The placeholder/value pairs, as characters.
pub open spec fn pairs_view(map: Seq<(String, String)>) -> Seq<(Seq<char>, Seq<char>)> {
    map.map_values(|p: (String, String)| (p.0@, p.1@))
}

/// `s` with each pair's placeholder replaced by its value, pair after pair.
pub open spec fn replaced_each(s: Seq<char>, pairs: Seq<(Seq<char>, Seq<char>)>) -> Seq<char>
    decreases pairs.len(),
{
    if pairs.len() == 0 {
        s
    } else {
        replaced_each(replaced(s, pairs[0].0, pairs[0].1), pairs.drop_first())
    }
}

/// What `template` becomes once both placeholders are filled in.
pub open spec fn rendered(template: Seq<char>, bibliography: Seq<char>, reference: Seq<char>) -> Seq<
    char,
> {
    replaced(replaced(template, BIBLIOGRAPHY_KEY@, bibliography), REFERENCE_KEY@, reference)
}

/// Replaces, in `text`, each placeholder of `map` by its value, in the order
/// of `map`.
pub fn replace(text: &str, map: &Vec<(String, String)>) -> (r: String)
    requires
        forall|i: int| 0 <= i < map@.len() ==> (#[trigger] map@[i]).0@.len() > 0,
    ensures
        r@ == replaced_each(text@, pairs_view(map@)),
{
    let ghost pairs = pairs_view(map@);
    let mut out = text.to_string();
    let mut n: usize = 0;
    assert(pairs.skip(0) =~= pairs);
    while n < map.len()
        invariant
            n <= map@.len(),
            pairs == pairs_view(map@),
            forall|i: int| 0 <= i < map@.len() ==> (#[trigger] map@[i]).0@.len() > 0,
            replaced_each(text@, pairs) == replaced_each(out@, pairs.skip(n as int)),
        decreases map@.len() - n,
    {
        let (key, value) = &map[n];
        assert(pairs.skip(n as int).drop_first() =~= pairs.skip(n + 1));
        out = replace_all(out.as_str(), key.as_str(), value.as_str());
        n = n + 1;
    }
    out
}

/// Fills in the bibliography's path and the cited entry's identifier.
pub fn render(template: &str, bibliography: &str, reference: &str) -> (r: String)
    ensures
        r@ == rendered(template@, bibliography@, reference@),
{
    let mut map: Vec<(String, String)> = Vec::new();
    map.push((BIBLIOGRAPHY_KEY.to_string(), bibliography.to_string()));
    map.push((REFERENCE_KEY.to_string(), reference.to_string()));
    proof {
        reveal_strlit("<bibliography>");
        reveal_strlit("<reference>");
    }
    let r = replace(template, &map);
    proof {
        let pairs = pairs_view(map@);
        assert(pairs[0] == (BIBLIOGRAPHY_KEY@, bibliography@));
        assert(pairs.drop_first()[0] == (REFERENCE_KEY@, reference@));
        assert(pairs.drop_first().drop_first() =~= Seq::<(Seq<char>, Seq<char>)>::empty());
        reveal_with_fuel(replaced_each, 3);
    }
    r
}

/// Text in which `k` does not occur is left as it is.
pub proof fn lemma_unrelated_text_kept(s: Seq<char>, k: Seq<char>, v: Seq<char>)
    requires
        !occurs(s, k),
    ensures
        replaced(s, k, v) == s,
    decreases s.len(),
{
    if s.len() > 0 {
        if 0 < k.len() <= s.len() && s.take(k.len() as int) == k {
            assert(s.subrange(0, 0 + k.len() as int) =~= s.take(k.len() as int));
        }
        let t = s.drop_first();
        assert forall|i: int| 0 <= i && i + k.len() <= t.len() implies #[trigger] t.subrange(
            i,
            i + k.len(),
        ) != k by {
            assert(t.subrange(i, i + k.len()) =~= s.subrange(i + 1, i + 1 + k.len()));
        }
        lemma_unrelated_text_kept(t, k, v);
        assert(seq![s[0]] + t =~= s);
    }
}

/// A template in which neither placeholder occurs renders to itself.
pub proof fn lemma_render_keeps_unrelated_text(t: Seq<char>, bibliography: Seq<char>, reference: Seq<char>)
    requires
        !occurs(t, BIBLIOGRAPHY_KEY@),
        !occurs(t, REFERENCE_KEY@),
    ensures
        rendered(t, bibliography, reference) == t,
{
    lemma_unrelated_text_kept(t, BIBLIOGRAPHY_KEY@, bibliography);
    lemma_unrelated_text_kept(t, REFERENCE_KEY@, reference);
}

/// Text that lacks the first character of `k` passes through unchanged, and
/// what follows it is replaced on its own.
proof fn lemma_plain_prefix(a: Seq<char>, s: Seq<char>, k: Seq<char>, v: Seq<char>)
    requires
        k.len() > 0,
        forall|i: int| 0 <= i < a.len() ==> a[i] != k[0],
    ensures
        replaced(a + s, k, v) == a + replaced(s, k, v),
    decreases a.len(),
{
    if a.len() > 0 {
        let t = a + s;
        if k.len() <= t.len() && t.take(k.len() as int) == k {
            assert(t.take(k.len() as int)[0] == a[0]);
        }
        assert(t.drop_first() =~= a.drop_first() + s);
        lemma_plain_prefix(a.drop_first(), s, k, v);
        assert(seq![a[0]] + (a.drop_first() + replaced(s, k, v)) =~= a + replaced(s, k, v));
    } else {
        assert(a + s =~= s);
        assert(a + replaced(s, k, v) =~= replaced(s, k, v));
    }
}

/// A placeholder at the front is replaced by its value.
proof fn lemma_key_prefix(s: Seq<char>, k: Seq<char>, v: Seq<char>)
    requires
        k.len() > 0,
    ensures
        replaced(k + s, k, v) == v + replaced(s, k, v),
{
    assert((k + s).take(k.len() as int) =~= k);
    assert((k + s).skip(k.len() as int) =~= s);
}

/// Where `k` occurs twice in a text whose other parts lack its first
/// character, both occurrences are replaced by the same value and the other
/// parts are kept.
pub proof fn lemma_both_occurrences_replaced(
    a: Seq<char>,
    b: Seq<char>,
    c: Seq<char>,
    k: Seq<char>,
    v: Seq<char>,
)
    requires
        k.len() > 0,
        forall|i: int| 0 <= i < a.len() ==> a[i] != k[0],
        forall|i: int| 0 <= i < b.len() ==> b[i] != k[0],
        forall|i: int| 0 <= i < c.len() ==> c[i] != k[0],
    ensures
        replaced(a + k + b + k + c, k, v) == a + v + b + v + c,
{
    let e = Seq::<char>::empty();
    lemma_plain_prefix(c, e, k, v);
    assert(c + e =~= c);
    assert(replaced(c, k, v) == c);
    lemma_key_prefix(c, k, v);
    let kc = k + c;
    lemma_plain_prefix(b, kc, k, v);
    let bkc = b + kc;
    assert(replaced(bkc, k, v) =~= b + (v + c));
    lemma_key_prefix(bkc, k, v);
    let kbkc = k + bkc;
    lemma_plain_prefix(a, kbkc, k, v);
    assert(a + kbkc =~= a + k + b + k + c);
    assert(a + (v + (b + (v + c))) =~= a + v + b + v + c);
}

/// Text with none of the placeholders of `pairs` is left as it is.
pub proof fn lemma_replace_keeps_unrelated_text(s: Seq<char>, pairs: Seq<(Seq<char>, Seq<char>)>)
    requires
        forall|i: int| 0 <= i < pairs.len() ==> !occurs(s, (#[trigger] pairs[i]).0),
    ensures
        replaced_each(s, pairs) == s,
    decreases pairs.len(),
{
    if pairs.len() > 0 {
        lemma_unrelated_text_kept(s, pairs[0].0, pairs[0].1);
        assert forall|i: int| 0 <= i < pairs.drop_first().len() implies !occurs(
            s,
            (#[trigger] pairs.drop_first()[i]).0,
        ) by {
            assert(pairs.drop_first()[i] == pairs[i + 1]);
        }
        lemma_replace_keeps_unrelated_text(s, pairs.drop_first());
    }
}

/// `c` does not occur in `s`.
pub open spec fn lacks(s: Seq<char>, c: char) -> bool {
    forall|i: int| 0 <= i < s.len() ==> s[i] != c
}

/// No occurrence of `k` can start inside `o`, whatever follows it: each of
/// its characters but the first differs from the first of `k`, and the first
/// is followed by one that differs from the second of `k`.
pub open spec fn passes(o: Seq<char>, k: Seq<char>) -> bool {
    forall|i: int|
        0 <= i < o.len() ==> #[trigger] o[i] != k[0] || (i == 0 && o.len() >= 2 && k.len() >= 2 && o[1]
            != k[1])
}

/// The segments `segs` with the pieces `fills` between them.
pub open spec fn joined(segs: Seq<Seq<char>>, fills: Seq<Seq<char>>) -> Seq<char>
    decreases fills.len(),
{
    if fills.len() == 0 || segs.len() == 0 {
        if segs.len() == 0 {
            Seq::empty()
        } else {
            segs[0]
        }
    } else {
        segs[0] + fills[0] + joined(segs.drop_first(), fills.drop_first())
    }
}

/// A prefix in which no occurrence of `k` can start is kept.
proof fn lemma_passing_prefix(a: Seq<char>, s: Seq<char>, k: Seq<char>, v: Seq<char>)
    requires
        k.len() > 0,
        passes(a, k),
    ensures
        replaced(a + s, k, v) == a + replaced(s, k, v),
    decreases a.len(),
{
    if a.len() > 0 {
        let t = a + s;
        if k.len() <= t.len() && t.take(k.len() as int) == k {
            assert(t.take(k.len() as int)[0] == a[0]);
            assert(t.take(k.len() as int)[1] == a[1]);
        }
        assert(t.drop_first() =~= a.drop_first() + s);
        assert(passes(a.drop_first(), k)) by {
            assert forall|i: int| 0 <= i < a.drop_first().len() implies a.drop_first()[i]
                != k[0] by {
                assert(a.drop_first()[i] == a[i + 1]);
            }
        }
        lemma_passing_prefix(a.drop_first(), s, k, v);
        assert(seq![a[0]] + (a.drop_first() + replaced(s, k, v)) =~= a + replaced(s, k, v));
    } else {
        assert(a + s =~= s);
        assert(a + replaced(s, k, v) =~= replaced(s, k, v));
    }
}

/// `f`, with `v` in place of `k`.
pub open spec fn filled(f: Seq<char>, k: Seq<char>, v: Seq<char>) -> Seq<char> {
    if f == k {
        v
    } else {
        f
    }
}

/// Replacing `k` in segments joined by pieces, where no occurrence of `k`
/// can start in a segment or in a piece other than `k` itself, fills each
/// piece `k` with `v` and keeps the rest.
proof fn lemma_replaced_joined(segs: Seq<Seq<char>>, fills: Seq<Seq<char>>, k: Seq<char>, v: Seq<char>)
    requires
        segs.len() == fills.len() + 1,
        k.len() > 0,
        forall|i: int| 0 <= i < segs.len() ==> passes(#[trigger] segs[i], k),
        forall|i: int| 0 <= i < fills.len() ==> #[trigger] fills[i] == k || passes(fills[i], k),
    ensures
        replaced(joined(segs, fills), k, v) == joined(
            segs,
            fills.map_values(|f: Seq<char>| filled(f, k, v)),
        ),
    decreases fills.len(),
{
    let out = fills.map_values(|f: Seq<char>| filled(f, k, v));
    if fills.len() == 0 {
        lemma_passing_prefix(segs[0], Seq::empty(), k, v);
        assert(segs[0] + Seq::<char>::empty() =~= segs[0]);
        assert(segs[0] + replaced(Seq::<char>::empty(), k, v) =~= segs[0]);
    } else {
        let rest = joined(segs.drop_first(), fills.drop_first());
        assert forall|i: int| 0 <= i < segs.drop_first().len() implies passes(
            #[trigger] segs.drop_first()[i],
            k,
        ) by {
            assert(segs.drop_first()[i] == segs[i + 1]);
        }
        assert forall|i: int| 0 <= i < fills.drop_first().len() implies #[trigger] fills.drop_first()[i]
            == k || passes(fills.drop_first()[i], k) by {
            assert(fills.drop_first()[i] == fills[i + 1]);
        }
        lemma_replaced_joined(segs.drop_first(), fills.drop_first(), k, v);
        assert(fills.drop_first().map_values(|f: Seq<char>| filled(f, k, v)) =~= out.drop_first());
        lemma_passing_prefix(segs[0], fills[0] + rest, k, v);
        if fills[0] == k {
            lemma_key_prefix(rest, k, v);
        } else {
            lemma_passing_prefix(fills[0], rest, k, v);
        }
        assert(segs[0] + fills[0] + rest =~= segs[0] + (fills[0] + rest));
        let done = joined(segs.drop_first(), out.drop_first());
        assert(segs[0] + (out[0] + done) =~= segs[0] + out[0] + done);
    }
}

/// A character-free text passes any key that starts with that character.
proof fn lemma_lacking_passes(s: Seq<char>, k: Seq<char>)
    requires
        k.len() > 0,
        lacks(s, k[0]),
    ensures
        passes(s, k),
{
}

/// Rendering a template made of segments without `<`, joined by
/// placeholders, fills each placeholder with its value and keeps every
/// segment as it is, in order, when neither value holds `<`.
pub proof fn lemma_render_fills_placeholders(
    segs: Seq<Seq<char>>,
    keys: Seq<Seq<char>>,
    bibliography: Seq<char>,
    reference: Seq<char>,
)
    requires
        segs.len() == keys.len() + 1,
        forall|i: int| 0 <= i < segs.len() ==> lacks(#[trigger] segs[i], '<'),
        forall|i: int|
            0 <= i < keys.len() ==> #[trigger] keys[i] == BIBLIOGRAPHY_KEY@ || keys[i]
                == REFERENCE_KEY@,
        lacks(bibliography, '<'),
        lacks(reference, '<'),
    ensures
        rendered(joined(segs, keys), bibliography, reference) == joined(
            segs,
            keys.map_values(
                |k: Seq<char>|
                    if k == BIBLIOGRAPHY_KEY@ {
                        bibliography
                    } else {
                        reference
                    },
            ),
        ),
{
    reveal_strlit("<bibliography>");
    reveal_strlit("<reference>");
    let bk = BIBLIOGRAPHY_KEY@;
    let rk = REFERENCE_KEY@;
    assert(bk[0] == '<' && bk[1] == 'b' && rk[0] == '<' && rk[1] == 'r');
    assert(passes(rk, bk)) by {
        assert forall|i: int| 0 <= i < rk.len() implies #[trigger] rk[i] != bk[0] || (i == 0 && rk.len() >= 2
            && bk.len() >= 2 && rk[1] != bk[1]) by {
            if i > 0 {
                assert(rk[i] != '<');
            }
        }
    }
    assert forall|i: int| 0 <= i < segs.len() implies passes(#[trigger] segs[i], bk) by {
        lemma_lacking_passes(segs[i], bk);
    }
    assert forall|i: int| 0 <= i < keys.len() implies #[trigger] keys[i] == bk || passes(keys[i], bk) by {}
    lemma_replaced_joined(segs, keys, bk, bibliography);
    let mid = keys.map_values(|f: Seq<char>| filled(f, bk, bibliography));
    assert(replaced(joined(segs, keys), bk, bibliography) == joined(segs, mid));
    assert forall|i: int| 0 <= i < segs.len() implies passes(#[trigger] segs[i], rk) by {
        lemma_lacking_passes(segs[i], rk);
    }
    lemma_lacking_passes(bibliography, rk);
    assert forall|i: int| 0 <= i < mid.len() implies #[trigger] mid[i] == rk || passes(mid[i], rk) by {
        if keys[i] == bk {
            assert(mid[i] == bibliography);
        } else {
            assert(keys[i] != bk);
            assert(mid[i] == rk);
        }
    }
    lemma_replaced_joined(segs, mid, rk, reference);
    let last = mid.map_values(|f: Seq<char>| filled(f, rk, reference));
    assert(replaced(joined(segs, mid), rk, reference) == joined(segs, last));
    let fin = keys.map_values(
        |k: Seq<char>|
            if k == bk {
                bibliography
            } else {
                reference
            },
    );
    assert forall|i: int| 0 <= i < keys.len() implies #[trigger] filled(mid[i], rk, reference) == fin[i] by {
        if keys[i] == bk {
            if bibliography == rk {
                assert(bibliography[0] == '<');
            }
        } else {
            assert(bk != rk) by {
                assert(bk[1] != rk[1]);
            }
        }
    }
    assert(last =~= fin);
    assert(fin =~= keys.map_values(
        |k: Seq<char>|
            if k == BIBLIOGRAPHY_KEY@ {
                bibliography
            } else {
                reference
            },
    ));
    assert(rendered(joined(segs, keys), bibliography, reference) == joined(segs, last));
}

} // verus!

use vstd::prelude::*;

verus! {

/// ASCII whitespace: the only separators the line grammar recognises.
pub open spec fn is_ws(c: char) -> bool {
    c == ' ' || c == '\t' || c == '\n' || c == '\r' || c == '\x0c'
}

/// The longest whitespace-free prefix of `s`.
pub open spec fn take_word(s: Seq<char>) -> Seq<char>
    decreases s.len(),
{
    if s.len() == 0 || is_ws(s[0]) {
        Seq::empty()
    } else {
        seq![s[0]] + take_word(s.drop_first())
    }
}

pub proof fn lemma_take_word_spec(s: Seq<char>)
    ensures
        take_word(s).len() <= s.len(),
        take_word(s) =~= s.subrange(0, take_word(s).len() as int),
        forall|j: int| 0 <= j < take_word(s).len() ==> !is_ws(s[j]),
        take_word(s).len() < s.len() ==> is_ws(s[take_word(s).len() as int]),
        s.len() > 0 && !is_ws(s[0]) ==> take_word(s).len() >= 1,
    decreases s.len(),
{
    if s.len() == 0 || is_ws(s[0]) {
    } else {
        lemma_take_word_spec(s.drop_first());
        let w = take_word(s);
        let wr = take_word(s.drop_first());
        assert(w =~= seq![s[0]] + wr);
        assert forall|j: int| 0 <= j < w.len() implies !is_ws(s[j]) by {
            if j > 0 {
                assert(!is_ws(s.drop_first()[j - 1]));
            }
        }
        assert(w =~= s.subrange(0, w.len() as int));
    }
}

/// `take_word` is exactly the prefix up to the first whitespace
/// character (or the whole sequence if there is none).
pub proof fn lemma_take_word_upto(s: Seq<char>, k: int)
    requires
        0 <= k <= s.len(),
        forall|j: int| 0 <= j < k ==> !is_ws(s[j]),
        k == s.len() || is_ws(s[k]),
    ensures
        take_word(s) == s.subrange(0, k),
    decreases s.len(),
{
    if k == 0 {
        assert(take_word(s) =~= s.subrange(0, 0));
    } else {
        assert(!is_ws(s[0]));
        lemma_take_word_upto(s.drop_first(), k - 1);
        assert(s.drop_first().subrange(0, k - 1) =~= s.subrange(1, k));
        assert(take_word(s) =~= seq![s[0]] + s.subrange(1, k));
        assert(take_word(s) =~= s.subrange(0, k));
    }
}

/// The words of `s`, in order: maximal whitespace-free runs.
pub open spec fn tokens(s: Seq<char>) -> Seq<Seq<char>>
    decreases s.len(),
        via tokens_decreases
{
    if s.len() == 0 {
        Seq::empty()
    } else if is_ws(s[0]) {
        tokens(s.drop_first())
    } else {
        seq![take_word(s)] + tokens(drop_word(s))
    }
}

#[via_fn]
proof fn tokens_decreases(s: Seq<char>) {
    if s.len() > 0 && !is_ws(s[0]) {
        lemma_take_word_spec(s);
    }
}

/// What remains of `s` after its leading word.
pub open spec fn drop_word(s: Seq<char>) -> Seq<char> {
    s.skip(take_word(s).len() as int)
}

pub proof fn lemma_drop_word_decreases(s: Seq<char>)
    requires
        s.len() > 0,
        !is_ws(s[0]),
    ensures
        drop_word(s).len() < s.len(),
{
    lemma_take_word_spec(s);
}

/// A sequence that can be a token: nonempty and whitespace-free.
pub open spec fn wordlike(t: Seq<char>) -> bool {
    t.len() > 0 && forall|j: int| 0 <= j < t.len() ==> !is_ws(t[j])
}

pub open spec fn all_wordlike(ts: Seq<Seq<char>>) -> bool {
    forall|i: int| 0 <= i < ts.len() ==> wordlike(#[trigger] ts[i])
}

pub proof fn lemma_tokens_wordlike(s: Seq<char>)
    ensures
        all_wordlike(tokens(s)),
    decreases s.len(),
{
    if s.len() == 0 {
    } else if is_ws(s[0]) {
        lemma_tokens_wordlike(s.drop_first());
    } else {
        lemma_take_word_spec(s);
        lemma_drop_word_decreases(s);
        lemma_tokens_wordlike(drop_word(s));
        let w = take_word(s);
        assert(wordlike(w)) by {
            assert(forall|j: int| 0 <= j < w.len() ==> w[j] == s[j] && !is_ws(s[j]));
        }
        assert forall|i: int| 0 <= i < tokens(s).len() implies wordlike(#[trigger] tokens(s)[i]) by {
            if i > 0 {
                assert(tokens(s)[i] == tokens(drop_word(s))[i - 1]);
            }
        }
    }
}

/// If a whitespace character follows `a`, the leading word of the whole
/// sequence is the leading word of `a`.
pub proof fn lemma_take_word_ws_after(a: Seq<char>, b: Seq<char>)
    requires
        b.len() > 0,
        is_ws(b[0]),
    ensures
        take_word(a + b) == take_word(a),
    decreases a.len(),
{
    if a.len() == 0 {
        assert(a + b =~= b);
        assert(take_word(a + b) =~= Seq::<char>::empty());
        assert(take_word(a) =~= Seq::<char>::empty());
    } else if is_ws(a[0]) {
        assert((a + b)[0] == a[0]);
    } else {
        assert((a + b).drop_first() =~= a.drop_first() + b);
        lemma_take_word_ws_after(a.drop_first(), b);
        assert(take_word(a + b) =~= seq![a[0]] + take_word(a.drop_first() + b));
        assert(take_word(a) =~= seq![a[0]] + take_word(a.drop_first()));
    }
}

/// Tokenisation splits at an explicit separator: the words of
/// `a + " " + b` are the words of `a` followed by the words of `b`.
pub proof fn lemma_tokens_split(a: Seq<char>, b: Seq<char>)
    ensures
        tokens(a + seq![' '] + b) == tokens(a) + tokens(b),
    decreases a.len(),
{
    let s = a + seq![' '] + b;
    if a.len() == 0 {
        assert(s =~= seq![' '] + b);
        assert(is_ws(s[0]));
        assert(s.drop_first() =~= b);
        assert(tokens(a) =~= Seq::<Seq<char>>::empty());
        assert(tokens(a) + tokens(b) =~= tokens(b));
    } else if is_ws(a[0]) {
        assert(s[0] == a[0]);
        assert(s.drop_first() =~= a.drop_first() + seq![' '] + b);
        lemma_tokens_split(a.drop_first(), b);
    } else {
        assert(s[0] == a[0]);
        assert(!is_ws(s[0]));
        lemma_take_word_ws_after(a, seq![' '] + b);
        assert(a + (seq![' '] + b) =~= s);
        assert(take_word(s) == take_word(a));
        let w = take_word(a);
        lemma_take_word_spec(a);
        assert(w.len() >= 1);
        assert(drop_word(s) =~= drop_word(a) + seq![' '] + b) by {
            assert(drop_word(s) =~= s.skip(w.len() as int));
        }
        lemma_drop_word_decreases(a);
        lemma_tokens_split(drop_word(a), b);
        assert(tokens(s) =~= seq![w] + (tokens(drop_word(a)) + tokens(b)));
        assert(tokens(a) =~= seq![w] + tokens(drop_word(a)));
        assert(tokens(s) =~= tokens(a) + tokens(b));
    }
}

/// Tokens joined with single spaces.
pub open spec fn join_spaces(ts: Seq<Seq<char>>) -> Seq<char>
    decreases ts.len(),
{
    if ts.len() == 0 {
        Seq::empty()
    } else if ts.len() == 1 {
        ts[0]
    } else {
        ts[0] + seq![' '] + join_spaces(ts.drop_first())
    }
}

/// A whitespace-free sequence is its own single word.
pub proof fn lemma_tokens_single(t: Seq<char>)
    requires
        wordlike(t),
    ensures
        tokens(t) == seq![t],
{
    assert(!is_ws(t[0]));
    lemma_take_word_upto(t, t.len() as int);
    assert(t.subrange(0, t.len() as int) =~= t);
    assert(take_word(t) == t);
    assert(drop_word(t) =~= Seq::<char>::empty());
    assert(drop_word(t) == Seq::<char>::empty());
    assert(tokens(drop_word(t)) == Seq::<Seq<char>>::empty());
    assert(tokens(t) == seq![take_word(t)] + tokens(drop_word(t)));
    assert(tokens(t) =~= seq![t]);
}

/// Tokenising a join of well-formed tokens gives those tokens back.
pub proof fn lemma_tokens_of_join(ts: Seq<Seq<char>>)
    requires
        all_wordlike(ts),
    ensures
        tokens(join_spaces(ts)) == ts,
    decreases ts.len(),
{
    if ts.len() == 0 {
        assert(tokens(join_spaces(ts)) =~= ts);
    } else if ts.len() == 1 {
        assert(wordlike(ts[0]));
        lemma_tokens_single(ts[0]);
        assert(tokens(join_spaces(ts)) =~= ts);
    } else {
        assert(all_wordlike(ts.drop_first())) by {
            assert(forall|i: int|
                0 <= i < ts.drop_first().len() ==> ts.drop_first()[i] == ts[i + 1]);
        }
        lemma_tokens_of_join(ts.drop_first());
        lemma_tokens_split(ts[0], join_spaces(ts.drop_first()));
        assert(wordlike(ts[0]));
        lemma_tokens_single(ts[0]);
        assert(tokens(join_spaces(ts)) =~= seq![ts[0]] + ts.drop_first());
        assert(tokens(join_spaces(ts)) =~= ts);
    }
}

/// A nonempty sequence holds `d` exactly when `d` is its head or its
/// tail holds it.
pub proof fn lemma_head_contains<A>(s: Seq<A>, d: A)
    requires
        s.len() > 0,
    ensures
        s.contains(d) <==> d == s[0] || s.drop_first().contains(d),
{
    assert(s =~= seq![s[0]] + s.drop_first());
    vstd::seq_lib::lemma_seq_concat_contains_all_elements(seq![s[0]], s.drop_first(), d);
    assert(seq![s[0]].contains(d) <==> d == s[0]) by {
        if d == s[0] {
            assert(seq![s[0]][0] == d);
        }
    }
}

/// A word, a space, and a remainder tokenise as the word followed by
/// the remainder's words.
pub proof fn lemma_tokens_chunk(w: Seq<char>, rest: Seq<char>)
    requires
        wordlike(w),
    ensures
        tokens(w + seq![' '] + rest) == seq![w] + tokens(rest),
{
    lemma_tokens_split(w, rest);
    lemma_tokens_single(w);
}

/// Joining one more token on the left.
pub proof fn lemma_join_cons(w: Seq<char>, rest: Seq<Seq<char>>)
    requires
        rest.len() > 0,
    ensures
        join_spaces(seq![w] + rest) == w + seq![' '] + join_spaces(rest),
{
    let ts = seq![w] + rest;
    assert(ts[0] == w);
    assert(ts.drop_first() =~= rest);
    assert(ts.len() >= 2);
}

/// A join of tokens headed by a real word is nonempty.
pub proof fn lemma_join_nonempty(ts: Seq<Seq<char>>)
    requires
        ts.len() > 0,
        wordlike(ts[0]),
    ensures
        join_spaces(ts).len() > 0,
{
}

/// Joining one more token on the right.
pub proof fn lemma_join_snoc(ts: Seq<Seq<char>>, t: Seq<char>)
    ensures
        join_spaces(ts.push(t)) == if ts.len() == 0 {
            t
        } else {
            join_spaces(ts) + seq![' '] + t
        },
    decreases ts.len(),
{
    if ts.len() == 0 {
        assert(ts.push(t)[0] == t);
        assert(join_spaces(ts.push(t)) == t);
    } else if ts.len() == 1 {
        assert(ts.push(t).drop_first() =~= seq![t]);
        assert(ts.push(t)[0] == ts[0]);
        assert(join_spaces(seq![t]) == t);
        assert(join_spaces(ts.push(t)) =~= ts[0] + seq![' '] + t);
        assert(join_spaces(ts) == ts[0]);
    } else {
        assert(ts.push(t).drop_first() =~= ts.drop_first().push(t));
        lemma_join_snoc(ts.drop_first(), t);
        assert(join_spaces(ts.push(t)) =~= ts[0] + seq![' '] + (join_spaces(ts.drop_first())
            + seq![' '] + t));
        assert(join_spaces(ts) + seq![' '] + t =~= ts[0] + seq![' '] + (join_spaces(
            ts.drop_first(),
        ) + seq![' '] + t));
    }
}

/// Relies on std's `String::push`: appends exactly one character.
#[verifier::external_body]
pub fn push_char(s: &mut String, c: char)
    ensures
        final(s)@ == old(s)@.push(c),
{
    s.push(c)
}

/// Whether `c` is an ASCII whitespace separator.
pub fn ws_char(c: char) -> (r: bool)
    ensures
        r == is_ws(c),
{
    c == ' ' || c == '\t' || c == '\n' || c == '\r' || c == '\x0c'
}

/// The characters of `s`, in order.
pub fn str_chars(s: &str) -> (r: Vec<char>)
    ensures
        r@ == s@,
{
    let n = s.unicode_len();
    let mut r: Vec<char> = Vec::new();
    let mut i: usize = 0;
    while i < n
        invariant
            i <= n,
            n == s@.len(),
            r@ =~= s@.subrange(0, i as int),
        decreases n - i,
    {
        r.push(s.get_char(i));
        i = i + 1;
        proof {
            assert(r@ =~= s@.subrange(0, i as int));
        }
    }
    proof {
        assert(s@.subrange(0, n as int) =~= s@);
    }
    r
}

/// A `String` holding the characters of `cs` from position `from` on.
pub fn string_from_chars(cs: &Vec<char>, from: usize) -> (r: String)
    requires
        from <= cs@.len(),
    ensures
        r@ == cs@.skip(from as int),
{
    let mut r = String::new();
    let mut i: usize = from;
    while i < cs.len()
        invariant
            from <= i <= cs@.len(),
            r@ =~= cs@.subrange(from as int, i as int),
        decreases cs@.len() - i,
    {
        push_char(&mut r, cs[i]);
        i = i + 1;
        proof {
            assert(r@ =~= cs@.subrange(from as int, i as int));
        }
    }
    proof {
        assert(cs@.subrange(from as int, cs@.len() as int) =~= cs@.skip(from as int));
    }
    r
}

/// The words of `cs`: maximal ASCII-whitespace-free runs, in order.
pub fn tokenize(cs: &Vec<char>) -> (r: Vec<Vec<char>>)
    ensures
        r.deep_view() == tokens(cs@),
{
    let mut toks: Vec<Vec<char>> = Vec::new();
    let mut i: usize = 0;
    proof {
        assert(cs@.skip(0) =~= cs@);
        assert(toks.deep_view() =~~= Seq::<Seq<char>>::empty());
        assert(toks.deep_view() + tokens(cs@) =~= tokens(cs@));
    }
    while i < cs.len()
        invariant
            i <= cs@.len(),
            tokens(cs@) == toks.deep_view() + tokens(cs@.skip(i as int)),
        decreases cs@.len() - i,
    {
        if ws_char(cs[i]) {
            proof {
                assert(cs@.skip(i as int).drop_first() =~= cs@.skip(i as int + 1));
            }
            i = i + 1;
        } else {
            let start = i;
            let mut j = i + 1;
            while j < cs.len() && !ws_char(cs[j])
                invariant
                    start < j <= cs@.len(),
                    forall|k: int| start <= k < j ==> !is_ws(cs@[k]),
                decreases cs@.len() - j,
            {
                j = j + 1;
            }
            let mut w: Vec<char> = Vec::new();
            let mut k = start;
            while k < j
                invariant
                    start <= k <= j <= cs@.len(),
                    w@ =~= cs@.subrange(start as int, k as int),
                decreases j - k,
            {
                w.push(cs[k]);
                k = k + 1;
                proof {
                    assert(w@ =~= cs@.subrange(start as int, k as int));
                }
            }
            proof {
                let rest = cs@.skip(start as int);
                assert(forall|m: int| 0 <= m < j - start ==> rest[m] == cs@[start + m]);
                assert(j == cs@.len() || is_ws(rest[j - start]));
                lemma_take_word_upto(rest, j - start);
                assert(rest.subrange(0, j - start) =~= cs@.subrange(start as int, j as int));
                assert(w.deep_view() =~= w@);
                assert(take_word(rest) == w@);
                assert(drop_word(rest) =~= cs@.skip(j as int));
                assert(rest.len() > 0 && !is_ws(rest[0]));
                assert(tokens(rest) == seq![w@] + tokens(cs@.skip(j as int)));
                let old_deep = toks.deep_view();
                assert(toks.deep_view().push(w@) + tokens(cs@.skip(j as int)) =~= toks.deep_view()
                    + tokens(rest));
            }
            let ghost old_deep = toks.deep_view();
            toks.push(w);
            proof {
                assert(toks.deep_view() =~~= old_deep.push(w@));
            }
            i = j;
        }
    }
    proof {
        assert(cs@.skip(i as int) =~= Seq::<char>::empty());
        assert(tokens(cs@.skip(i as int)) =~= Seq::<Seq<char>>::empty());
        assert(toks.deep_view() =~= tokens(cs@));
    }
    toks
}

/// The tokens from position `from` on, joined with single spaces.
pub fn join_from(toks: &Vec<Vec<char>>, from: usize) -> (r: String)
    requires
        from <= toks@.len(),
    ensures
        r@ == join_spaces(toks.deep_view().skip(from as int)),
{
    let ghost all = toks.deep_view().skip(from as int);
    let mut r = String::new();
    let mut k = from;
    while k < toks.len()
        invariant
            from <= k <= toks@.len(),
            all == toks.deep_view().skip(from as int),
            toks.deep_view().len() == toks@.len(),
            r@ == join_spaces(toks.deep_view().subrange(from as int, k as int)),
        decreases toks@.len() - k,
    {
        let ghost sofar = toks.deep_view().subrange(from as int, k as int);
        if k > from {
            push_char(&mut r, ' ');
        }
        let w = &toks[k];
        let mut m: usize = 0;
        let ghost base = r@;
        while m < w.len()
            invariant
                m <= w@.len(),
                r@ =~= base + w@.subrange(0, m as int),
            decreases w@.len() - m,
        {
            push_char(&mut r, w[m]);
            m = m + 1;
            proof {
                assert(r@ =~= base + w@.subrange(0, m as int));
            }
        }
        proof {
            assert(w@.subrange(0, w@.len() as int) =~= w@);
            assert(toks.deep_view()[k as int] == w@);
            lemma_join_snoc(sofar, w@);
            assert(toks.deep_view().subrange(from as int, k as int + 1) =~= sofar.push(w@));
            if k == from {
                assert(sofar.len() == 0);
                assert(r@ =~= w@);
            } else {
                assert(r@ =~= join_spaces(sofar) + seq![' '] + w@);
            }
        }
        k = k + 1;
    }
    proof {
        assert(toks.deep_view().subrange(from as int, toks@.len() as int) =~= all);
    }
    r
}

/// Strict lexicographic order on character sequences, by code point.
pub open spec fn lex_lt(a: Seq<char>, b: Seq<char>) -> bool
    decreases a.len(),
{
    if b.len() == 0 {
        false
    } else if a.len() == 0 {
        true
    } else if (a[0] as u32) < (b[0] as u32) {
        true
    } else if a[0] != b[0] {
        false
    } else {
        lex_lt(a.drop_first(), b.drop_first())
    }
}

/// No sequence lexicographically precedes itself.
pub proof fn lemma_lex_lt_irrefl(a: Seq<char>)
    ensures
        !lex_lt(a, a),
    decreases a.len(),
{
    if a.len() > 0 {
        lemma_lex_lt_irrefl(a.drop_first());
    }
}

/// Of two distinct sequences exactly one precedes the other; no
/// sequence precedes itself.
pub proof fn lemma_lex_lt_total(a: Seq<char>, b: Seq<char>)
    ensures
        a == b || lex_lt(a, b) || lex_lt(b, a),
        !(lex_lt(a, b) && lex_lt(b, a)),
        !lex_lt(a, a),
    decreases a.len(),
{
    lemma_lex_lt_irrefl(a);
    if a.len() == 0 || b.len() == 0 {
        if a.len() == 0 && b.len() == 0 {
            assert(a =~= b);
        }
    } else {
        if a[0] == b[0] {
            lemma_lex_lt_total(a.drop_first(), b.drop_first());
            if a.drop_first() == b.drop_first() {
                assert forall|j: int| 0 <= j < a.len() implies a[j] == b[j] by {
                    if j > 0 {
                        assert(a[j] == a.drop_first()[j - 1]);
                        assert(b[j] == b.drop_first()[j - 1]);
                    }
                }
                assert(a =~= b);
            }
        } else {
            vstd::utf8::char_u32_cast(a[0], a[0] as u32);
            vstd::utf8::char_u32_cast(b[0], b[0] as u32);
            assert((a[0] as u32) != (b[0] as u32));
        }
    }
}

/// Lexicographic order is transitive.
pub proof fn lemma_lex_lt_trans(a: Seq<char>, b: Seq<char>, c: Seq<char>)
    requires
        lex_lt(a, b),
        lex_lt(b, c),
    ensures
        lex_lt(a, c),
    decreases a.len(),
{
    if a.len() == 0 {
    } else {
        assert(b.len() > 0 && c.len() > 0);
        if a[0] == b[0] && b[0] == c[0] {
            lemma_lex_lt_trans(a.drop_first(), b.drop_first(), c.drop_first());
        }
    }
}

/// Whether `a` lexicographically precedes `b` (strictly), by code point.
pub fn str_lex_lt(a: &String, b: &String) -> (r: bool)
    ensures
        r == lex_lt(a@, b@),
{
    let an = a.as_str().unicode_len();
    let bn = b.as_str().unicode_len();
    let mut i: usize = 0;
    proof {
        assert(a@.skip(0) =~= a@);
        assert(b@.skip(0) =~= b@);
    }
    loop
        invariant
            i <= an,
            i <= bn,
            an == a@.len(),
            bn == b@.len(),
            forall|j: int| 0 <= j < i ==> a@[j] == b@[j],
            lex_lt(a@, b@) == lex_lt(a@.skip(i as int), b@.skip(i as int)),
        decreases an - i,
    {
        if i >= bn {
            proof {
                assert(b@.skip(i as int).len() == 0);
            }
            return false;
        }
        if i >= an {
            proof {
                assert(a@.skip(i as int).len() == 0 && b@.skip(i as int).len() > 0);
            }
            return true;
        }
        let ca = a.as_str().get_char(i);
        let cb = b.as_str().get_char(i);
        proof {
            assert(a@.skip(i as int)[0] == a@[i as int]);
            assert(b@.skip(i as int)[0] == b@[i as int]);
            assert(a@.skip(i as int).drop_first() =~= a@.skip(i as int + 1));
            assert(b@.skip(i as int).drop_first() =~= b@.skip(i as int + 1));
        }
        if (ca as u32) < (cb as u32) {
            return true;
        }
        if ca != cb {
            return false;
        }
        i = i + 1;
    }
}

} // verus!

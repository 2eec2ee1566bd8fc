use vstd::prelude::*;

verus! {

/// Whether `c` has the Unicode `White_Space` property, the set of characters that
/// `char::is_whitespace` accepts.
pub open spec fn is_space(c: char) -> bool {
    let u = c as u32;
    ||| u == 0x20
    ||| 0x09 <= u <= 0x0d
    ||| u == 0x85
    ||| u == 0xa0
    ||| u == 0x1680
    ||| 0x2000 <= u <= 0x200a
    ||| u == 0x2028
    ||| u == 0x2029
    ||| u == 0x202f
    ||| u == 0x205f
    ||| u == 0x3000
}

/// The words of `s` that follow a partly read word `cur`: maximal runs of
/// characters that are not white space, read from left to right.
pub open spec fn words_from(s: Seq<char>, cur: Seq<char>) -> Seq<Seq<char>>
    decreases s.len(),
{
    if s.len() == 0 {
        if cur.len() == 0 { seq![] } else { seq![cur] }
    } else if is_space(s[0]) {
        if cur.len() == 0 {
            words_from(s.drop_first(), seq![])
        } else {
            seq![cur] + words_from(s.drop_first(), seq![])
        }
    } else {
        words_from(s.drop_first(), cur.push(s[0]))
    }
}

/// The white-space separated words of `s`, as `str::split_whitespace` yields them.
pub open spec fn words(s: Seq<char>) -> Seq<Seq<char>> {
    words_from(s, seq![])
}

/// The words `ws` written one after another with `sep` between neighbours.
pub open spec fn join(ws: Seq<Seq<char>>, sep: Seq<char>) -> Seq<char>
    decreases ws.len(),
{
    if ws.len() == 0 {
        seq![]
    } else if ws.len() == 1 {
        ws[0]
    } else {
        join(ws.drop_last(), sep) + sep + ws.last()
    }
}

/// The decimal digit `d` as a character.
pub open spec fn digit_char(d: nat) -> char {
    (('0' as u32) + d) as char
}

/// The decimal numeral of `n`, without leading zeros.
pub open spec fn decimal(n: nat) -> Seq<char>
    decreases n,
{
    if n < 10 {
        seq![digit_char(n)]
    } else {
        decimal(n / 10).push(digit_char(n % 10))
    }
}

/// `w` is a word: not empty and free of white space.
pub open spec fn is_word(w: Seq<char>) -> bool {
    w.len() > 0 && forall|i: int| 0 <= i < w.len() ==> !is_space(#[trigger] w[i])
}

/// The character views of a sequence of strings.
pub open spec fn views(v: Seq<String>) -> Seq<Seq<char>> {
    v.map_values(|w: String| w@)
}

/// Appends one character to a string (`String::push`).
#[verifier::external_body]
pub(crate) fn push_char(s: &mut String, c: char)
    ensures
        final(s)@ == old(s)@.push(c),
{
    s.push(c);
}

/// The characters of `s`, in order.
pub fn chars_of(s: &str) -> (r: Vec<char>)
    ensures
        r@ == s@,
{
    let mut r: Vec<char> = Vec::new();
    for c in it: s.chars()
        invariant
            r@ == it.seq().take(it.index() as int),
    {
        r.push(c);
    }
    r
}

/// Whether `c` is white space in the sense of `char::is_whitespace`.
pub fn is_space_char(c: char) -> (r: bool)
    ensures
        r == is_space(c),
{
    let u = c as u32;
    u == 0x20 || (0x09 <= u && u <= 0x0d) || u == 0x85 || u == 0xa0 || u == 0x1680 || (0x2000
        <= u && u <= 0x200a) || u == 0x2028 || u == 0x2029 || u == 0x202f || u == 0x205f || u
        == 0x3000
}

/// The white-space separated words of `s`.
pub fn split_words(s: &str) -> (r: Vec<String>)
    ensures
        views(r@) == words(s@),
{
    let cs = chars_of(s);
    let mut r: Vec<String> = Vec::new();
    let mut cur = String::new();
    let mut i: usize = 0;
    assert(s@.skip(0) =~= s@);
    assert(views(r@) + words_from(s@, cur@) =~= words_from(s@, cur@));
    while i < cs.len()
        invariant
            i <= cs@.len(),
            cs@ == s@,
            words(s@) == views(r@) + words_from(s@.skip(i as int), cur@),
        decreases cs@.len() - i,
    {
        let c = cs[i];
        let ghost rest = s@.skip(i as int);
        assert(rest.drop_first() =~= s@.skip(i + 1));
        assert(rest[0] == c);
        let ghost old_r = views(r@);
        let ghost old_cur = cur@;
        if is_space_char(c) {
            if !cur.as_str().is_empty() {
                let w = cur;
                cur = String::new();
                proof {
                    assert(views(r@.push(w)) =~= views(r@) + seq![w@]);
                }
                r.push(w);
                assert(words_from(rest, old_cur) == seq![old_cur] + words_from(rest.drop_first(), seq![]));
                assert(views(r@) + words_from(rest.drop_first(), cur@) =~= old_r + (seq![old_cur] + words_from(rest.drop_first(), seq![])));
                assert(words(s@) == views(r@) + words_from(s@.skip(i + 1), cur@));
            } else {
                assert(words_from(rest, old_cur) == words_from(rest.drop_first(), seq![]));
                assert(cur@ =~= seq![]);
                assert(words(s@) == views(r@) + words_from(s@.skip(i + 1), cur@));
            }
        } else {
            push_char(&mut cur, c);
            assert(words_from(rest, old_cur) == words_from(rest.drop_first(), old_cur.push(c)));
            assert(words(s@) == views(r@) + words_from(s@.skip(i + 1), cur@));
        }
        i = i + 1;
    }
    assert(s@.skip(i as int) =~= Seq::<char>::empty());
    if !cur.as_str().is_empty() {
        proof {
            assert(views(r@.push(cur)) =~= views(r@) + seq![cur@]);
        }
        r.push(cur);
    } else {
        assert(views(r@) + seq![] =~= views(r@));
    }
    r
}

/// The decimal numeral of `n`.
pub fn decimal_string(n: usize) -> (r: String)
    ensures
        r@ == decimal(n as nat),
{
    let mut m = n;
    let mut low: Vec<char> = Vec::new();
    while m >= 10
        invariant
            decimal(n as nat) == decimal(m as nat) + low@.reverse(),
        decreases m,
    {
        let d = (m % 10) as u8;
        let c = (48u8 + d) as char;
        assert(c == digit_char((m % 10) as nat));
        let ghost old_low = low@;
        low.push(c);
        assert(low@.reverse() =~= seq![c] + old_low.reverse());
        assert(decimal(m as nat) == decimal((m / 10) as nat).push(c));
        assert(decimal(m as nat) + old_low.reverse() =~= decimal((m / 10) as nat) + (seq![c] + old_low.reverse()));
        m = m / 10;
    }
    let mut r = String::new();
    let top = (48u8 + m as u8) as char;
    assert(top == digit_char(m as nat));
    push_char(&mut r, top);
    let mut k: usize = low.len();
    while k > 0
        invariant
            k <= low@.len(),
            decimal(n as nat) == seq![top] + low@.reverse(),
            r@ == seq![top] + low@.reverse().take((low@.len() - k) as int),
        decreases k,
    {
        k = k - 1;
        push_char(&mut r, low[k]);
        assert(low@.reverse()[(low@.len() - 1 - k) as int] == low@[k as int]);
        assert(r@ =~= seq![top] + low@.reverse().take((low@.len() - k) as int));
    }
    assert(low@.reverse().take(low@.len() as int) =~= low@.reverse());
    r
}

/// The strings `ws[lo..hi]` joined with `sep`.
pub fn join_range(ws: &Vec<String>, lo: usize, hi: usize, sep: &str) -> (r: String)
    requires
        lo <= hi <= ws@.len(),
    ensures
        r@ == join(views(ws@).subrange(lo as int, hi as int), sep@),
{
    let mut r = String::new();
    let mut i = lo;
    assert(views(ws@).subrange(lo as int, lo as int) =~= Seq::<Seq<char>>::empty());
    while i < hi
        invariant
            lo <= i <= hi <= ws@.len(),
            r@ == join(views(ws@).subrange(lo as int, i as int), sep@),
        decreases hi - i,
    {
        let ghost prev = views(ws@).subrange(lo as int, i as int);
        let ghost next = views(ws@).subrange(lo as int, i + 1);
        assert(next.drop_last() =~= prev);
        assert(next.last() == ws@[i as int]@);
        if i > lo {
            r.append(sep);
        }
        r.append(ws[i].as_str());
        i = i + 1;
    }
    r
}

proof fn lemma_words_from_are_words(s: Seq<char>, cur: Seq<char>)
    requires
        forall|i: int| 0 <= i < cur.len() ==> !is_space(#[trigger] cur[i]),
    ensures
        forall|k: int| 0 <= k < words_from(s, cur).len() ==> is_word(#[trigger] words_from(s, cur)[k]),
    decreases s.len(),
{
    if s.len() == 0 {
        if cur.len() > 0 {
            assert(words_from(s, cur) == seq![cur]);
            assert(is_word(cur));
        }
    } else if is_space(s[0]) {
        lemma_words_from_are_words(s.drop_first(), seq![]);
        if cur.len() > 0 {
            let rest = words_from(s.drop_first(), seq![]);
            assert(words_from(s, cur) == seq![cur] + rest);
            assert forall|k: int| 0 <= k < (seq![cur] + rest).len() implies is_word(#[trigger] (seq![cur] + rest)[k]) by {
                if k > 0 {
                    assert((seq![cur] + rest)[k] == rest[k - 1]);
                } else {
                    assert(is_word(cur));
                }
            }
        } else {
            assert(words_from(s, cur) == words_from(s.drop_first(), seq![]));
        }
    } else {
        let c2 = cur.push(s[0]);
        assert forall|i: int| 0 <= i < c2.len() implies !is_space(#[trigger] c2[i]) by {
            if i < cur.len() {
                assert(c2[i] == cur[i]);
            }
        }
        lemma_words_from_are_words(s.drop_first(), c2);
        assert(words_from(s, cur) == words_from(s.drop_first(), c2));
    }
}

/// Every word of a text is a word: not empty and free of white space.
pub proof fn law_words_are_words(s: Seq<char>)
    ensures
        forall|k: int| 0 <= k < words(s).len() ==> is_word(#[trigger] words(s)[k]),
{
    lemma_words_from_are_words(s, seq![]);
}

proof fn lemma_words_from_word_prefix(w: Seq<char>, q: Seq<char>, cur: Seq<char>)
    requires
        forall|i: int| 0 <= i < w.len() ==> !is_space(#[trigger] w[i]),
    ensures
        words_from(w + q, cur) == words_from(q, cur + w),
    decreases w.len(),
{
    if w.len() == 0 {
        assert(w + q =~= q);
        assert(cur + w =~= cur);
    } else {
        assert((w + q)[0] == w[0]);
        assert((w + q).drop_first() =~= w.drop_first() + q);
        assert forall|i: int| 0 <= i < w.drop_first().len() implies !is_space(#[trigger] w.drop_first()[i]) by {
            assert(w.drop_first()[i] == w[i + 1]);
        }
        lemma_words_from_word_prefix(w.drop_first(), q, cur.push(w[0]));
        assert(cur.push(w[0]) + w.drop_first() =~= cur + w);
    }
}

proof fn lemma_join_front(ws: Seq<Seq<char>>, sep: Seq<char>)
    requires
        ws.len() >= 2,
    ensures
        join(ws, sep) == ws[0] + sep + join(ws.drop_first(), sep),
    decreases ws.len(),
{
    assert(join(ws, sep) == join(ws.drop_last(), sep) + sep + ws.last());
    if ws.len() == 2 {
        assert(ws.drop_last() =~= seq![ws[0]]);
        assert(ws.drop_first() =~= seq![ws[1]]);
        assert(join(ws.drop_last(), sep) == ws[0]);
        assert(join(ws.drop_first(), sep) == ws[1]);
    } else {
        lemma_join_front(ws.drop_last(), sep);
        assert(ws.drop_last().drop_first() =~= ws.drop_first().drop_last());
        assert(ws.drop_first().last() == ws.last());
        assert(join(ws.drop_first(), sep) == join(ws.drop_first().drop_last(), sep) + sep + ws.drop_first().last());
        assert(ws.drop_last()[0] == ws[0]);
        assert(join(ws, sep) =~= ws[0] + sep + join(ws.drop_first(), sep));
    }
}

/// Splitting words joined by single spaces gives back the words.
pub proof fn law_words_of_join(ws: Seq<Seq<char>>)
    requires
        forall|k: int| 0 <= k < ws.len() ==> is_word(#[trigger] ws[k]),
    ensures
        words(join(ws, seq![' '])) == ws,
    decreases ws.len(),
{
    let sp = seq![' '];
    assert(is_space(' '));
    if ws.len() == 0 {
        assert(words(join(ws, sp)) =~= ws);
    } else if ws.len() == 1 {
        assert(is_word(ws[0]));
        lemma_words_from_word_prefix(ws[0], seq![], seq![]);
        assert(ws[0] + Seq::<char>::empty() =~= ws[0]);
        assert(Seq::<char>::empty() + ws[0] =~= ws[0]);
        assert(words(join(ws, sp)) =~= ws);
    } else {
        lemma_join_front(ws, sp);
        let rest = ws.drop_first();
        assert forall|k: int| 0 <= k < rest.len() implies is_word(#[trigger] rest[k]) by {
            assert(rest[k] == ws[k + 1]);
        }
        law_words_of_join(rest);
        let jr = join(rest, sp);
        assert(is_word(ws[0]));
        assert(ws[0] + sp + jr =~= ws[0] + (sp + jr));
        lemma_words_from_word_prefix(ws[0], sp + jr, seq![]);
        assert(Seq::<char>::empty() + ws[0] =~= ws[0]);
        assert((sp + jr)[0] == ' ');
        assert((sp + jr).drop_first() =~= jr);
        assert(words_from(sp + jr, ws[0]) == seq![ws[0]] + words_from(jr, seq![]));
        assert(seq![ws[0]] + rest =~= ws);
    }
}

} // verus!

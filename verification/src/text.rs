//! Character-level text operations: whitespace, words, byte lengths.
use vstd::prelude::*;
use vstd::utf8::encode_utf8;

verus! {

broadcast use vstd::string::group_string_axioms;

/// Unicode `White_Space` property, as `char::is_whitespace` documents it.
pub open spec fn is_white(c: char) -> bool {
    let u = c as u32;
    ||| 0x09 <= u <= 0x0D
    ||| u == 0x20
    ||| u == 0x85
    ||| u == 0xA0
    ||| u == 0x1680
    ||| 0x2000 <= u <= 0x200A
    ||| u == 0x2028
    ||| u == 0x2029
    ||| u == 0x202F
    ||| u == 0x205F
    ||| u == 0x3000
}

/// Whether `c` is Unicode whitespace.
pub fn is_whitespace(c: char) -> (b: bool)
    ensures
        b == is_white(c),
{
    let u = c as u32;
    (0x09 <= u && u <= 0x0D) || u == 0x20 || u == 0x85 || u == 0xA0 || u == 0x1680 || (0x2000
        <= u && u <= 0x200A) || u == 0x2028 || u == 0x2029 || u == 0x202F || u == 0x205F || u
        == 0x3000
}

/// Number of bytes of the UTF-8 encoding of `s`: what `str::len` returns.
pub open spec fn byte_len(s: Seq<char>) -> nat {
    encode_utf8(s).len()
}

/// What `str::len` reports for a string with these characters.
pub open spec fn str_len(s: Seq<char>) -> int {
    (byte_len(s) as usize) as int
}

/// Number of bytes of a string, as `str::len` counts them.
pub fn text_len(s: &String) -> (n: usize)
    ensures
        n == str_len(s@),
{
    s.as_str().len()
}

/// `a` and `b` joined by one space.
pub open spec fn spaced(a: Seq<char>, b: Seq<char>) -> Seq<char> {
    a + seq![' '] + b
}

/// `a`, a space, and `b`, as one new string.
pub fn join_spaced(a: &String, b: &String) -> (r: String)
    ensures
        r@ == spaced(a@, b@),
{
    let mut r = a.clone();
    let sep = " ";
    proof {
        reveal_strlit(" ");
    }
    r.append(sep);
    r.append(b.as_str());
    r
}

/// The characters of a string, in order.
pub fn chars_of(s: &str) -> (v: Vec<char>)
    ensures
        v@ == s@,
{
    let mut v: Vec<char> = Vec::new();
    for c in it: s.chars()
        invariant
            v@ == it.history(),
    {
        v.push(c);
    }
    v
}


/// The words of `s`: its maximal runs of non-whitespace characters, in
/// order, as `str::split_whitespace` yields them.
pub open spec fn words(s: Seq<char>) -> Seq<Seq<char>>
    decreases s.len(),
{
    if s.len() == 0 {
        seq![]
    } else {
        let prev = words(s.drop_last());
        let c = s.last();
        if is_white(c) {
            prev
        } else if s.len() > 1 && !is_white(s[s.len() - 2]) {
            prev.update(prev.len() - 1, prev.last().push(c))
        } else {
            prev.push(seq![c])
        }
    }
}

/// `ws` joined with single spaces, as `[&str]::join(" ")` builds it.
pub open spec fn join_words(ws: Seq<Seq<char>>) -> Seq<char>
    decreases ws.len(),
{
    if ws.len() == 0 {
        seq![]
    } else if ws.len() == 1 {
        ws[0]
    } else {
        spaced(join_words(ws.drop_last()), ws.last())
    }
}

/// The character sequences of a list of words.
pub open spec fn word_views(ws: Seq<Vec<char>>) -> Seq<Seq<char>> {
    ws.map_values(|w: Vec<char>| w@)
}

/// The words of a string, in order.
pub fn split_words(s: &str) -> (ws: Vec<Vec<char>>)
    ensures
        word_views(ws@) == words(s@),
{
    let v = chars_of(s);
    let mut ws: Vec<Vec<char>> = Vec::new();
    let mut cur: Vec<char> = Vec::new();
    let n = v.len();
    let mut i: usize = 0;
    while i < n
        invariant
            n == v.len(),
            i <= n,
            v@ == s@,
            words(v@.take(i as int)) == if cur@.len() == 0 {
                word_views(ws@)
            } else {
                word_views(ws@).push(cur@)
            },
            cur@.len() > 0 <==> (i > 0 && !is_white(v@[i - 1])),
        decreases n - i,
    {
        let c = v[i];
        let ghost pre = v@.take(i as int);
        let ghost next = v@.take(i as int + 1);
        proof {
            assert(next.drop_last() =~= pre);
            assert(next.last() == c);
            if i > 0 {
                assert(next[next.len() - 2] == v@[i - 1]);
            }
        }
        if is_whitespace(c) {
            if cur.len() > 0 {
                let ghost before = ws@;
                ws.push(cur);
                proof {
                    assert(word_views(ws@) =~= word_views(before).push(cur@));
                }
                cur = Vec::new();
            }
        } else {
            let ghost old_cur = cur@;
            cur.push(c);
            proof {
                if old_cur.len() > 0 {
                    let p = word_views(ws@).push(old_cur);
                    assert(p.update(p.len() - 1, p.last().push(c)) =~= word_views(ws@).push(cur@));
                } else {
                    assert(cur@ =~= seq![c]);
                }
            }
        }
        i = i + 1;
    }
    if cur.len() > 0 {
        let ghost before = ws@;
        ws.push(cur);
        proof {
            assert(word_views(ws@) =~= word_views(before).push(cur@));
        }
    }
    proof {
        assert(v@.take(n as int) =~= v@);
    }
    ws
}

/// The characters of a list of words joined with single spaces.
pub fn join_word_chars(ws: &[Vec<char>], from: usize, to: usize) -> (r: Vec<char>)
    requires
        from <= to <= ws@.len(),
    ensures
        r@ == join_words(word_views(ws@).subrange(from as int, to as int)),
{
    let mut r: Vec<char> = Vec::new();
    let mut k = from;
    while k < to
        invariant
            from <= k <= to <= ws@.len(),
            r@ == join_words(word_views(ws@).subrange(from as int, k as int)),
        decreases to - k,
    {
        let ghost sub = word_views(ws@).subrange(from as int, k as int);
        let ghost sub1 = word_views(ws@).subrange(from as int, k as int + 1);
        proof {
            assert(sub1.drop_last() =~= sub);
            assert(sub1.last() == ws@[k as int]@);
        }
        if k > from {
            r.push(' ');
        }
        let w = &ws[k];
        let mut j: usize = 0;
        let ghost base = r@;
        while j < w.len()
            invariant
                j <= w@.len(),
                r@ == base + w@.take(j as int),
            decreases w@.len() - j,
        {
            r.push(w[j]);
            proof {
                assert(w@.take(j as int + 1) =~= w@.take(j as int).push(w@[j as int]));
            }
            j = j + 1;
        }
        proof {
            assert(w@.take(w@.len() as int) =~= w@);
            if k > from {
                assert(r@ =~= spaced(join_words(sub), w@));
            } else {
                assert(r@ =~= w@);
            }
        }
        k = k + 1;
    }
    r
}

/// A word: some characters, none of them whitespace.
pub open spec fn is_word(w: Seq<char>) -> bool {
    w.len() > 0 && forall|i: int| 0 <= i < w.len() ==> !is_white(#[trigger] w[i])
}

/// A word written after a text that is empty or ends in whitespace is one
/// more word of the whole.
pub proof fn lemma_words_append_word(s: Seq<char>, w: Seq<char>)
    requires
        is_word(w),
        s.len() == 0 || is_white(s.last()),
    ensures
        words(s + w) == words(s).push(w),
    decreases w.len(),
{
    let t = s + w;
    assert(t.last() == w.last());
    if w.len() == 1 {
        assert(t.drop_last() =~= s);
        if s.len() > 0 {
            assert(t[t.len() - 2] == s.last());
        }
        assert(w =~= seq![w[0]]);
    } else {
        let w0 = w.drop_last();
        assert(is_word(w0)) by {
            assert forall|i: int| 0 <= i < w0.len() implies !is_white(#[trigger] w0[i]) by {
                assert(w0[i] == w[i]);
            }
        }
        lemma_words_append_word(s, w0);
        assert(t.drop_last() =~= s + w0);
        assert(t[t.len() - 2] == w[w.len() - 2]);
        let prev = words(s).push(w0);
        assert(w0.push(w.last()) =~= w);
        assert(prev.update(prev.len() - 1, prev.last().push(w.last())) =~= words(s).push(w));
    }
}

/// Every word of a text is a word, and a text that ends in a
/// non-whitespace character has at least one.
pub proof fn lemma_words_are_words(s: Seq<char>)
    ensures
        forall|i: int| 0 <= i < words(s).len() ==> is_word(#[trigger] words(s)[i]),
        s.len() > 0 && !is_white(s.last()) ==> words(s).len() > 0,
    decreases s.len(),
{
    if s.len() > 0 {
        let init = s.drop_last();
        lemma_words_are_words(init);
        let prev = words(init);
        let c = s.last();
        if !is_white(c) && s.len() > 1 && !is_white(s[s.len() - 2]) {
            assert(init.last() == s[s.len() - 2]);
            let grown = prev.last().push(c);
            assert(is_word(grown)) by {
                assert(is_word(prev[prev.len() - 1]));
                assert forall|i: int| 0 <= i < grown.len() implies !is_white(#[trigger] grown[i]) by {
                    if i < grown.len() - 1 {
                        assert(grown[i] == prev[prev.len() - 1][i]);
                    }
                }
            }
            assert forall|i: int| 0 <= i < words(s).len() implies is_word(#[trigger] words(s)[i]) by {
                if i < prev.len() - 1 {
                    assert(words(s)[i] == prev[i]);
                }
            }
        } else if !is_white(c) {
            assert(is_word(seq![c]));
            assert forall|i: int| 0 <= i < words(s).len() implies is_word(#[trigger] words(s)[i]) by {
                if i < prev.len() {
                    assert(words(s)[i] == prev[i]);
                }
            }
        }
    }
}

/// Words joined by single spaces split back into the same words.
pub proof fn lemma_words_of_joined(ws: Seq<Seq<char>>)
    requires
        forall|i: int| 0 <= i < ws.len() ==> is_word(#[trigger] ws[i]),
    ensures
        words(join_words(ws)) == ws,
        ws.len() > 0 ==> join_words(ws).len() > 0,
    decreases ws.len(),
{
    if ws.len() == 1 {
        lemma_words_append_word(seq![], ws[0]);
        assert(seq![] + ws[0] =~= ws[0]);
        assert(seq![].push(ws[0]) =~= ws);
        assert(is_word(ws[0]));
    } else if ws.len() > 1 {
        let init = ws.drop_last();
        assert forall|i: int| 0 <= i < init.len() implies is_word(#[trigger] init[i]) by {
            assert(init[i] == ws[i]);
        }
        lemma_words_of_joined(init);
        let s = join_words(init) + seq![' '];
        assert(s.drop_last() =~= join_words(init));
        assert(is_white(s.last()));
        assert(is_word(ws.last()));
        lemma_words_append_word(s, ws.last());
        assert(s + ws.last() =~= spaced(join_words(init), ws.last()));
        assert(init.push(ws.last()) =~= ws);
    }
}

/// Trusted: `String::from_iter` over the characters of a slice gives a
/// string holding exactly those characters, in order.
#[verifier::external_body]
pub(crate) fn string_from_chars(chars: &[char]) -> (s: String)
    ensures
        s@ == chars@,
{
    String::from_iter(chars.iter())
}

/// Jaccard similarity of the word sets of `a` and `b` is above one half
/// (two texts without words count as identical).
pub open spec fn similar(a: Seq<char>, b: Seq<char>) -> bool {
    let wa = words(a).to_set();
    let wb = words(b).to_set();
    ||| wa.len() == 0 && wb.len() == 0
    ||| 2 * wa.intersect(wb).len() > wa.union(wb).len()
}

/// Whether two character vectors hold the same characters.
pub fn same_chars(a: &Vec<char>, b: &Vec<char>) -> (r: bool)
    ensures
        r == (a@ == b@),
{
    if a.len() != b.len() {
        return false;
    }
    let mut i: usize = 0;
    while i < a.len()
        invariant
            a@.len() == b@.len(),
            i <= a@.len(),
            forall|k: int| 0 <= k < i ==> a@[k] == b@[k],
        decreases a@.len() - i,
    {
        if a[i] != b[i] {
            return false;
        }
        i = i + 1;
    }
    proof {
        assert(a@ =~= b@);
    }
    true
}

/// Whether the word `w` is one of `ws`.
pub fn has_word(ws: &Vec<Vec<char>>, w: &Vec<char>) -> (r: bool)
    ensures
        r == word_views(ws@).contains(w@),
{
    let mut i: usize = 0;
    while i < ws.len()
        invariant
            i <= ws@.len(),
            forall|k: int| 0 <= k < i ==> ws@[k]@ != w@,
        decreases ws@.len() - i,
    {
        if same_chars(&ws[i], w) {
            proof {
                assert(word_views(ws@)[i as int] == w@);
            }
            return true;
        }
        i = i + 1;
    }
    proof {
        if word_views(ws@).contains(w@) {
            let k = choose|k: int| 0 <= k < word_views(ws@).len() && word_views(ws@)[k] == w@;
            assert(ws@[k]@ == w@);
        }
    }
    false
}

/// A copy of a word.
fn copy_word(w: &Vec<char>) -> (r: Vec<char>)
    ensures
        r@ == w@,
{
    let mut r: Vec<char> = Vec::new();
    let mut i: usize = 0;
    while i < w.len()
        invariant
            i <= w@.len(),
            r@ == w@.take(i as int),
        decreases w@.len() - i,
    {
        r.push(w[i]);
        proof {
            assert(w@.take(i as int + 1) =~= w@.take(i as int).push(w@[i as int]));
        }
        i = i + 1;
    }
    proof {
        assert(w@.take(w@.len() as int) =~= w@);
    }
    r
}

/// The distinct words of `ws`, each once.
fn distinct_words(ws: &Vec<Vec<char>>) -> (d: Vec<Vec<char>>)
    ensures
        word_views(d@).no_duplicates(),
        word_views(d@).to_set() == word_views(ws@).to_set(),
{
    let mut d: Vec<Vec<char>> = Vec::new();
    let mut i: usize = 0;
    while i < ws.len()
        invariant
            i <= ws@.len(),
            word_views(d@).no_duplicates(),
            word_views(d@).to_set() == word_views(ws@).take(i as int).to_set(),
        decreases ws@.len() - i,
    {
        let ghost before = word_views(d@);
        let ghost pre = word_views(ws@).take(i as int);
        proof {
            assert(word_views(ws@).take(i as int + 1) =~= pre.push(ws@[i as int]@));
        }
        if !has_word(&d, &ws[i]) {
            d.push(copy_word(&ws[i]));
            proof {
                assert(word_views(d@) =~= before.push(ws@[i as int]@));
                before.lemma_push_to_set_commute(ws@[i as int]@);
                pre.lemma_push_to_set_commute(ws@[i as int]@);
            }
        } else {
            proof {
                assert(before.to_set() =~= pre.push(ws@[i as int]@).to_set());
            }
        }
        i = i + 1;
    }
    proof {
        assert(word_views(ws@).take(ws@.len() as int) =~= word_views(ws@));
    }
    d
}

/// Whether more than half of all distinct words of `a` and `b` occur in
/// both (true when neither has any word).
pub fn texts_similar(a: &String, b: &String) -> (r: bool)
    ensures
        r == similar(a@, b@),
{
    let da = distinct_words(&split_words(a.as_str()));
    let db = distinct_words(&split_words(b.as_str()));
    let ghost sa = word_views(da@).to_set();
    let ghost sb = word_views(db@).to_set();
    let mut common: usize = 0;
    let mut i: usize = 0;
    proof {
        assert(word_views(da@).take(0).to_set() =~= Set::<Seq<char>>::empty());
        assert(Set::<Seq<char>>::empty().intersect(sb) =~= Set::<Seq<char>>::empty());
    }
    while i < da.len()
        invariant
            i <= da@.len(),
            common <= i,
            word_views(da@).no_duplicates(),
            sb == word_views(db@).to_set(),
            common == word_views(da@).take(i as int).to_set().intersect(sb).len(),
        decreases da@.len() - i,
    {
        let ghost pre = word_views(da@).take(i as int);
        let ghost w = da@[i as int]@;
        proof {
            assert(word_views(da@).take(i as int + 1) =~= pre.push(w));
            pre.lemma_push_to_set_commute(w);
            assert(!pre.to_set().contains(w)) by {
                if pre.contains(w) {
                    let k = choose|k: int| 0 <= k < pre.len() && pre[k] == w;
                    assert(word_views(da@)[k] == word_views(da@)[i as int]);
                }
            }
            vstd::seq_lib::seq_to_set_is_finite(pre);
        }
        if has_word(&db, &da[i]) {
            proof {
                assert(pre.to_set().insert(w).intersect(sb) =~= pre.to_set().intersect(sb).insert(w));
            }
            common = common + 1;
        } else {
            proof {
                assert(pre.to_set().insert(w).intersect(sb) =~= pre.to_set().intersect(sb));
            }
        }
        i = i + 1;
    }
    proof {
        assert(word_views(da@).take(da@.len() as int) =~= word_views(da@));
        word_views(da@).unique_seq_to_set();
        word_views(db@).unique_seq_to_set();
        vstd::seq_lib::seq_to_set_is_finite(word_views(da@));
        vstd::seq_lib::seq_to_set_is_finite(word_views(db@));
        vstd::set_lib::lemma_set_intersect_union_lens(sa, sb);
        assert(sa.union(sb) == sa + sb);
    }
    let na = da.len();
    let nb = db.len();
    (na == 0 && nb == 0) || 2 * (common as u128) > (na as u128) + (nb as u128) - (common as u128)
}

/// `s` without its leading whitespace.
pub open spec fn trim_front(s: Seq<char>) -> Seq<char>
    decreases s.len(),
{
    if s.len() > 0 && is_white(s[0]) {
        trim_front(s.drop_first())
    } else {
        s
    }
}

/// `s` without its trailing whitespace.
pub open spec fn trim_back(s: Seq<char>) -> Seq<char>
    decreases s.len(),
{
    if s.len() > 0 && is_white(s.last()) {
        trim_back(s.drop_last())
    } else {
        s
    }
}

/// `s` without leading and trailing whitespace, as `str::trim` gives it.
pub open spec fn trimmed(s: Seq<char>) -> Seq<char> {
    trim_back(trim_front(s))
}

/// The characters of `v` from `from` to `to`.
pub fn chars_between(v: &Vec<char>, from: usize, to: usize) -> (r: Vec<char>)
    requires
        from <= to <= v@.len(),
    ensures
        r@ == v@.subrange(from as int, to as int),
{
    let mut r: Vec<char> = Vec::new();
    let mut k = from;
    while k < to
        invariant
            from <= k <= to <= v@.len(),
            r@ == v@.subrange(from as int, k as int),
        decreases to - k,
    {
        r.push(v[k]);
        proof {
            assert(v@.subrange(from as int, k as int + 1) =~= v@.subrange(from as int, k as int).push(
                v@[k as int],
            ));
        }
        k = k + 1;
    }
    r
}

/// The characters of `v` without leading and trailing whitespace.
pub fn trim_chars(v: &Vec<char>) -> (r: Vec<char>)
    ensures
        r@ == trimmed(v@),
{
    let n = v.len();
    let mut a: usize = 0;
    proof {
        assert(v@.skip(0) =~= v@);
    }
    while a < n && is_whitespace(v[a])
        invariant
            a <= n == v@.len(),
            trim_front(v@) == trim_front(v@.skip(a as int)),
        decreases n - a,
    {
        proof {
            assert(v@.skip(a as int).drop_first() =~= v@.skip(a as int + 1));
        }
        a = a + 1;
    }
    let ghost front = v@.skip(a as int);
    proof {
        assert(trim_front(front) == front);
    }
    let mut b: usize = n;
    while b > a && is_whitespace(v[b - 1])
        invariant
            a <= b <= n == v@.len(),
            front == v@.skip(a as int),
            trim_back(front) == trim_back(v@.subrange(a as int, b as int)),
        decreases b - a,
    {
        proof {
            assert(v@.subrange(a as int, b as int).drop_last() =~= v@.subrange(a as int, b as int - 1));
        }
        b = b - 1;
    }
    proof {
        assert(v@.skip(a as int) =~= v@.subrange(a as int, n as int));
        assert(trim_back(v@.subrange(a as int, b as int)) == v@.subrange(a as int, b as int));
    }
    chars_between(v, a, b)
}

/// A string without leading and trailing whitespace.
pub fn trim(s: &str) -> (r: String)
    ensures
        r@ == trimmed(s@),
{
    let v = chars_of(s);
    let t = trim_chars(&v);
    string_from_chars(t.as_slice())
}
} // verus!

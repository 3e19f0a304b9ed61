//! Verified string primitives the storage core is built on: character
//! vectors, lexicographic comparison, whitespace trimming, suffix and
//! separator handling, and decimal rendering.

use vstd::prelude::*;

verus! {

/// Characters stripped from titles before they become filenames
/// (disallowed on common filesystems).
pub open spec fn is_forbidden_char(c: char) -> bool {
    c == '/' || c == '\\' || c == ':' || c == '*' || c == '?' || c == '"' || c == '<' || c == '>'
        || c == '|'
}

/// The Unicode white-space characters, as Rust's `char::is_whitespace`
/// recognises them.
pub open spec fn is_space_char(c: char) -> bool {
    c == ' ' || c == '\t' || c == '\n' || c == '\u{0B}' || c == '\u{0C}' || c == '\r'
        || c == '\u{85}' || c == '\u{A0}' || c == '\u{1680}' || ('\u{2000}' <= c && c <= '\u{200A}')
        || c == '\u{2028}' || c == '\u{2029}' || c == '\u{202F}' || c == '\u{205F}'
        || c == '\u{3000}'
}

/// Decides `is_forbidden_char` in executable code.
pub fn forbidden_char(c: char) -> (r: bool)
    ensures
        r == is_forbidden_char(c),
{
    c == '/' || c == '\\' || c == ':' || c == '*' || c == '?' || c == '"' || c == '<' || c == '>'
        || c == '|'
}

/// Decides `is_space_char` in executable code.
pub fn space_char(c: char) -> (r: bool)
    ensures
        r == is_space_char(c),
{
    c == ' ' || c == '\t' || c == '\n' || c == '\u{0B}' || c == '\u{0C}' || c == '\r'
        || c == '\u{85}' || c == '\u{A0}' || c == '\u{1680}' || ('\u{2000}' <= c && c <= '\u{200A}')
        || c == '\u{2028}' || c == '\u{2029}' || c == '\u{202F}' || c == '\u{205F}'
        || c == '\u{3000}'
}

/// The characters of `s`, in order, as a vector.
pub fn chars_of(s: &str) -> (r: Vec<char>)
    ensures
        r@ == s@,
{
    let n = s.unicode_len();
    let mut v: Vec<char> = Vec::new();
    let mut i: usize = 0;
    while i < n
        invariant
            n == s@.len(),
            i <= n,
            v@ =~= s@.subrange(0, i as int),
        decreases n - i,
    {
        v.push(s.get_char(i));
        i = i + 1;
    }
    assert(v@ =~= s@);
    v
}

/// `a` comes before `b`, or equals it, in lexicographic order by
/// Unicode code point.  This is the order Rust's `str` comparison
/// induces, and the order the listing engine breaks timestamp ties
/// with.
pub open spec fn lex_le(a: Seq<char>, b: Seq<char>) -> bool
    decreases a.len(),
{
    if a.len() == 0 {
        true
    } else if b.len() == 0 {
        false
    } else if a[0] != b[0] {
        a[0] < b[0]
    } else {
        lex_le(a.drop_first(), b.drop_first())
    }
}

/// Any two strings are comparable under `lex_le`.
pub proof fn lemma_lex_le_total(a: Seq<char>, b: Seq<char>)
    ensures
        lex_le(a, b) || lex_le(b, a),
    decreases a.len(),
{
    if a.len() == 0 || b.len() == 0 {
    } else if a[0] != b[0] {
    } else {
        lemma_lex_le_total(a.drop_first(), b.drop_first());
    }
}

/// `lex_le` is transitive.
pub proof fn lemma_lex_le_trans(a: Seq<char>, b: Seq<char>, c: Seq<char>)
    requires
        lex_le(a, b),
        lex_le(b, c),
    ensures
        lex_le(a, c),
    decreases a.len(),
{
    if a.len() == 0 {
    } else {
        if a[0] == b[0] && b[0] == c[0] {
            lemma_lex_le_trans(a.drop_first(), b.drop_first(), c.drop_first());
        }
    }
}

proof fn lemma_lex_le_skip(a: Seq<char>, b: Seq<char>, i: int)
    requires
        0 <= i <= a.len(),
        i <= b.len(),
        forall|j: int| 0 <= j < i ==> a[j] == b[j],
    ensures
        lex_le(a, b) == lex_le(a.skip(i), b.skip(i)),
    decreases i,
{
    if i > 0 {
        assert(a.len() > 0 && b.len() > 0 && a[0] == b[0]);
        assert(a.drop_first() =~= a.skip(1));
        assert(b.drop_first() =~= b.skip(1));
        lemma_lex_le_skip(a.skip(1), b.skip(1), i - 1);
        assert(a.skip(1).skip(i - 1) =~= a.skip(i));
        assert(b.skip(1).skip(i - 1) =~= b.skip(i));
    } else {
        assert(a.skip(0) =~= a);
        assert(b.skip(0) =~= b);
    }
}

/// Decides `lex_le` in executable code.
pub fn str_lex_le(a: &str, b: &str) -> (r: bool)
    ensures
        r == lex_le(a@, b@),
{
    let alen = a.unicode_len();
    let blen = b.unicode_len();
    let mut i: usize = 0;
    loop
        invariant
            alen == a@.len(),
            blen == b@.len(),
            i <= alen,
            i <= blen,
            forall|j: int| 0 <= j < i ==> a@[j] == b@[j],
        decreases alen - i,
    {
        proof {
            lemma_lex_le_skip(a@, b@, i as int);
        }
        if i >= alen {
            assert(a@.skip(i as int).len() == 0);
            return true;
        }
        if i >= blen {
            assert(b@.skip(i as int).len() == 0);
            assert(a@.skip(i as int).len() > 0);
            return false;
        }
        let ca = a.get_char(i);
        let cb = b.get_char(i);
        if ca != cb {
            assert(a@.skip(i as int)[0] == ca && b@.skip(i as int)[0] == cb);
            return ca < cb;
        }
        i = i + 1;
    }
}

/// `lex_le` on whole `Option`s: an absent string sorts after every
/// present one (so explicitly stamped values come first).
pub open spec fn opt_lex_le(a: Option<Seq<char>>, b: Option<Seq<char>>) -> bool {
    match (a, b) {
        (Option::Some(x), Option::Some(y)) => lex_le(x, y),
        (Option::Some(_), Option::None) => true,
        (Option::None, Option::Some(_)) => false,
        (Option::None, Option::None) => true,
    }
}

/// `s` with the characters failing `keep` removed, order kept.
pub open spec fn filter_chars(s: Seq<char>, keep: spec_fn(char) -> bool) -> Seq<char>
    decreases s.len(),
{
    if s.len() == 0 {
        Seq::empty()
    } else if keep(s[0]) {
        seq![s[0]] + filter_chars(s.drop_first(), keep)
    } else {
        filter_chars(s.drop_first(), keep)
    }
}

proof fn lemma_filter_chars_snoc(s: Seq<char>, c: char, keep: spec_fn(char) -> bool)
    ensures
        filter_chars(s.push(c), keep) == if keep(c) {
            filter_chars(s, keep).push(c)
        } else {
            filter_chars(s, keep)
        },
    decreases s.len(),
{
    let t = s.push(c);
    assert(t.len() == s.len() + 1);
    if s.len() == 0 {
        assert(t[0] == c);
        assert(t.drop_first() =~= Seq::<char>::empty());
        assert(filter_chars(Seq::<char>::empty(), keep) =~= Seq::<char>::empty());
        if keep(c) {
            assert(filter_chars(t, keep) =~= seq![c] + Seq::<char>::empty());
            assert(filter_chars(s, keep) =~= Seq::<char>::empty());
            assert(filter_chars(t, keep) =~= filter_chars(s, keep).push(c));
        } else {
            assert(filter_chars(t, keep) =~= Seq::<char>::empty());
            assert(filter_chars(s, keep) =~= Seq::<char>::empty());
        }
    } else {
        assert(t[0] == s[0]);
        assert(t.drop_first() =~= s.drop_first().push(c));
        lemma_filter_chars_snoc(s.drop_first(), c, keep);
        if keep(s[0]) {
            if keep(c) {
                assert(filter_chars(t, keep) =~= seq![s[0]] + filter_chars(
                    s.drop_first(),
                    keep,
                ).push(c));
                assert(seq![s[0]] + filter_chars(s.drop_first(), keep).push(c) =~= (seq![s[0]]
                    + filter_chars(s.drop_first(), keep)).push(c));
            }
        }
    }
}

/// `s` without its leading white space.
pub open spec fn trim_start(s: Seq<char>) -> Seq<char>
    decreases s.len(),
{
    if s.len() > 0 && is_space_char(s[0]) {
        trim_start(s.drop_first())
    } else {
        s
    }
}

/// `s` without its trailing white space.
pub open spec fn trim_end(s: Seq<char>) -> Seq<char>
    decreases s.len(),
{
    if s.len() > 0 && is_space_char(s[s.len() - 1]) {
        trim_end(s.drop_last())
    } else {
        s
    }
}

/// `s` without white space at either end.
pub open spec fn trim_chars(s: Seq<char>) -> Seq<char> {
    trim_end(trim_start(s))
}

proof fn lemma_trim_start_skip(s: Seq<char>, i: int)
    requires
        0 <= i <= s.len(),
        forall|j: int| 0 <= j < i ==> is_space_char(s[j]),
    ensures
        trim_start(s) == trim_start(s.skip(i)),
    decreases i,
{
    if i > 0 {
        assert(is_space_char(s[0]));
        assert(s.drop_first() =~= s.skip(1));
        lemma_trim_start_skip(s.skip(1), i - 1);
        assert(s.skip(1).skip(i - 1) =~= s.skip(i));
    } else {
        assert(s.skip(0) =~= s);
    }
}

proof fn lemma_trim_end_take(s: Seq<char>, i: int)
    requires
        0 <= i <= s.len(),
        forall|j: int| i <= j < s.len() ==> is_space_char(s[j]),
    ensures
        trim_end(s) == trim_end(s.take(i)),
    decreases s.len() - i,
{
    if i < s.len() {
        assert(is_space_char(s[s.len() - 1]));
        lemma_trim_end_take(s.drop_last(), i);
        assert(s.drop_last().take(i) =~= s.take(i));
    } else {
        assert(s.take(i) =~= s);
    }
}

/// Trims white space from both ends of a character vector.
pub fn trim_vec(v: &Vec<char>) -> (r: Vec<char>)
    ensures
        r@ == trim_chars(v@),
{
    let n = v.len();
    let mut lo: usize = 0;
    while lo < n && space_char(v[lo])
        invariant
            n == v@.len(),
            lo <= n,
            forall|j: int| 0 <= j < lo ==> is_space_char(v@[j]),
        decreases n - lo,
    {
        lo = lo + 1;
    }
    proof {
        lemma_trim_start_skip(v@, lo as int);
        if lo < n {
            assert(v@.skip(lo as int)[0] == v@[lo as int]);
        }
        assert(trim_start(v@) == v@.skip(lo as int));
    }
    let mut hi: usize = n;
    while hi > lo && space_char(v[hi - 1])
        invariant
            n == v@.len(),
            lo <= hi <= n,
            forall|j: int| hi <= j < n ==> is_space_char(v@[j]),
        decreases hi,
    {
        hi = hi - 1;
    }
    let ghost tail = v@.skip(lo as int);
    proof {
        assert(forall|j: int| hi - lo <= j < tail.len() ==> is_space_char(#[trigger] tail[j]));
        lemma_trim_end_take(tail, hi - lo);
        if hi > lo {
            assert(tail.take(hi - lo)[hi - lo - 1] == v@[hi - 1]);
        }
        assert(trim_end(tail) == tail.take(hi - lo));
    }
    let mut r: Vec<char> = Vec::new();
    let mut i: usize = lo;
    while i < hi
        invariant
            lo <= i <= hi <= n,
            n == v@.len(),
            r@ =~= v@.subrange(lo as int, i as int),
        decreases hi - i,
    {
        r.push(v[i]);
        i = i + 1;
    }
    proof {
        assert(r@ =~= tail.take(hi - lo));
    }
    r
}

/// Keeps only the characters allowed in filenames.
pub fn filter_vec(v: &Vec<char>) -> (r: Vec<char>)
    ensures
        r@ == filter_chars(v@, |c: char| !is_forbidden_char(c)),
{
    let ghost keep = |c: char| !is_forbidden_char(c);
    let mut r: Vec<char> = Vec::new();
    let mut i: usize = 0;
    while i < v.len()
        invariant
            i <= v@.len(),
            keep == (|c: char| !is_forbidden_char(c)),
            r@ == filter_chars(v@.subrange(0, i as int), keep),
        decreases v@.len() - i,
    {
        let c = v[i];
        proof {
            lemma_filter_chars_snoc(v@.subrange(0, i as int), c, keep);
            assert(v@.subrange(0, i as int).push(c) =~= v@.subrange(0, i as int + 1));
            assert(keep(c) == !is_forbidden_char(c));
        }
        if !forbidden_char(c) {
            r.push(c);
            assert(r@ == filter_chars(v@.subrange(0, i as int), keep).push(c));
        } else {
            assert(r@ == filter_chars(v@.subrange(0, i as int), keep));
        }
        assert(r@ == filter_chars(v@.subrange(0, i as int + 1), keep));
        i = i + 1;
    }
    proof {
        assert(v@.subrange(0, v@.len() as int) =~= v@);
    }
    r
}

/// The first `n` characters of `s`, or all of them if it is shorter.
pub open spec fn take_at_most(s: Seq<char>, n: int) -> Seq<char> {
    if s.len() <= n {
        s
    } else {
        s.take(n)
    }
}

/// Truncates a character vector to at most `n` characters.
pub fn truncate_vec(v: Vec<char>, n: usize) -> (r: Vec<char>)
    ensures
        r@ == take_at_most(v@, n as int),
{
    let ghost v0 = v@;
    let mut v = v;
    while v.len() > n
        invariant
            take_at_most(v@, n as int) == take_at_most(v0, n as int),
        decreases v@.len(),
    {
        proof {
            assert(v@.drop_last().take(n as int) =~= v@.take(n as int));
        }
        v.pop();
    }
    proof {
        assert(v@ == take_at_most(v@, n as int));
    }
    v
}

/// The index of the last occurrence of `c` in `s`, if any.
pub open spec fn last_index_of(s: Seq<char>, c: char) -> Option<int>
    decreases s.len(),
{
    if s.len() == 0 {
        None
    } else if s[s.len() - 1] == c {
        Some(s.len() - 1)
    } else {
        last_index_of(s.drop_last(), c)
    }
}

proof fn lemma_last_index_of_take(s: Seq<char>, c: char, i: int)
    requires
        0 <= i <= s.len(),
        forall|j: int| i <= j < s.len() ==> s[j] != c,
    ensures
        last_index_of(s, c) == last_index_of(s.take(i), c),
    decreases s.len() - i,
{
    if i < s.len() {
        lemma_last_index_of_take(s.drop_last(), c, i);
        assert(s.drop_last().take(i) =~= s.take(i));
    } else {
        assert(s.take(i) =~= s);
    }
}

/// Finds the last occurrence of `c` in `v`.
pub fn find_last(v: &Vec<char>, c: char) -> (r: Option<usize>)
    ensures
        match r {
            Some(p) => p < v@.len() && last_index_of(v@, c) == Some(p as int),
            None => last_index_of(v@, c) == None::<int>,
        },
{
    let mut i: usize = v.len();
    while i > 0
        invariant
            i <= v@.len(),
            forall|j: int| i <= j < v@.len() ==> v@[j] != c,
        decreases i,
    {
        if v[i - 1] == c {
            proof {
                lemma_last_index_of_take(v@, c, i as int);
                assert(v@.take(i as int)[i - 1] == v@[i - 1]);
            }
            return Some(i - 1);
        }
        i = i - 1;
    }
    proof {
        lemma_last_index_of_take(v@, c, 0);
        assert(v@.take(0) =~= Seq::<char>::empty());
    }
    None
}

/// Digits of `n` in decimal, most significant first.
pub open spec fn dec_digits(n: nat) -> Seq<char>
    decreases n,
{
    if n < 10 {
        seq![digit_char(n)]
    } else {
        dec_digits(n / 10).push(digit_char(n % 10))
    }
}

/// The character for a single decimal digit.
pub open spec fn digit_char(d: nat) -> char {
    ((48 + d) as u8) as char
}

/// The decimal rendering of a possibly negative number.
pub open spec fn dec_int(n: int) -> Seq<char> {
    if n < 0 {
        seq!['-'] + dec_digits((-n) as nat)
    } else {
        dec_digits(n as nat)
    }
}

/// Appends the characters of `src` to `dst`.
pub fn append_chars(dst: &mut Vec<char>, src: &Vec<char>)
    ensures
        final(dst)@ == old(dst)@ + src@,
{
    let mut i: usize = 0;
    while i < src.len()
        invariant
            i <= src@.len(),
            dst@ =~= old(dst)@ + src@.subrange(0, i as int),
        decreases src@.len() - i,
    {
        dst.push(src[i]);
        i = i + 1;
    }
    proof {
        assert(dst@ =~= old(dst)@ + src@);
    }
}

/// Renders `n` in decimal.
pub fn u64_to_chars(n: u64) -> (r: Vec<char>)
    ensures
        r@ == dec_digits(n as nat),
{
    let mut m = n;
    let mut rev: Vec<char> = Vec::new();
    loop
        invariant_except_break
            dec_digits(n as nat) =~= dec_digits(m as nat) + rev@.reverse(),
        ensures
            dec_digits(n as nat) =~= rev@.reverse(),
        decreases m,
    {
        let d = (m % 10) as u8;
        let ghost old_rev = rev@;
        let ghost old_m = m as nat;
        rev.push((48 + d) as char);
        proof {
            assert(rev@.reverse() =~= seq![digit_char(old_m % 10)] + old_rev.reverse());
        }
        if m < 10 {
            proof {
                assert(dec_digits(old_m) =~= seq![digit_char(old_m)]);
                assert(dec_digits(n as nat) =~= rev@.reverse());
            }
            break ;
        }
        m = m / 10;
        proof {
            assert(dec_digits(old_m) == dec_digits(old_m / 10).push(digit_char(old_m % 10)));
            assert(dec_digits(old_m / 10).push(digit_char(old_m % 10)) =~= dec_digits(old_m / 10)
                + seq![digit_char(old_m % 10)]);
            assert(dec_digits(old_m / 10) + seq![digit_char(old_m % 10)] + old_rev.reverse()
                =~= dec_digits(old_m / 10) + (seq![digit_char(old_m % 10)] + old_rev.reverse()));
        }
    }
    let mut r: Vec<char> = Vec::new();
    let mut i: usize = rev.len();
    while i > 0
        invariant
            i <= rev@.len(),
            r@ =~= rev@.reverse().take(rev@.len() - i),
        decreases i,
    {
        proof {
            assert(rev@.reverse()[rev@.len() - i] == rev@[i - 1]);
        }
        r.push(rev[i - 1]);
        i = i - 1;
    }
    proof {
        assert(r@ =~= rev@.reverse());
    }
    r
}

/// Renders a possibly negative number in decimal.
pub fn i64_to_chars(n: i64) -> (r: Vec<char>)
    ensures
        r@ == dec_int(n as int),
{
    if n >= 0 {
        u64_to_chars(n as u64)
    } else {
        let m: u64 = ((-(n + 1)) as u64) + 1;
        proof {
            assert(m as nat == -(n as int));
        }
        let d = u64_to_chars(m);
        let mut out: Vec<char> = Vec::new();
        out.push('-');
        append_chars(&mut out, &d);
        proof {
            assert(out@ =~= seq!['-'] + dec_digits((-(n as int)) as nat));
        }
        out
    }
}

} // verus!
